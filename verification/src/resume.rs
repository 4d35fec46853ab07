//! Planning a resumed run.
//!
//! The prior run is first held against this pipeline, and refused where the two
//! cannot be compared or do not match. Otherwise the plan says which nodes run again:
//! those that did not succeed, everything downstream of a node that runs again, and
//! every producer whose value is needed again and cannot be had from storage.

pub mod laws;
pub mod plan;

pub use self::plan::{plan_resume, ResumePlan};

use crate::context::TerminalState;
use crate::names::NameMap;
use crate::text;
use vstd::prelude::*;

verus! {

/// What a prior run recorded of one node.
#[derive(Debug, Clone, PartialEq, Eq)]
pub struct PriorNode {
    /// The state the node ended in.
    pub terminal: TerminalState,
    /// The durable reference that its success recorded, if any.
    pub durable_reference: Option<String>,
    /// The run in which the success originated.
    pub originating_run: String,
}

/// The contents of a [`PriorNode`].
#[verifier::ext_equal]
pub struct PriorNodeView {
    pub terminal: TerminalState,
    pub durable_reference: Option<Seq<char>>,
    pub originating_run: Seq<char>,
}

impl View for PriorNode {
    type V = PriorNodeView;

    open spec fn view(&self) -> PriorNodeView {
        PriorNodeView {
            terminal: self.terminal,
            durable_reference: crate::assembly::text_of(self.durable_reference),
            originating_run: self.originating_run@,
        }
    }
}

/// What a prior run recorded.
#[derive(Debug, Clone, PartialEq, Eq)]
pub struct PriorRun {
    /// Its structural fingerprint.
    pub structural_fingerprint: u64,
    /// Its policy hash.
    pub policy_hash: u64,
    /// The version of the algorithm that made the fingerprints.
    pub algorithm_version: u64,
    /// The version of the tool that recorded it.
    pub tool_version: String,
    /// Its nodes, by name.
    pub nodes: NameMap<PriorNode>,
}

/// The contents of a [`PriorRun`].
#[verifier::ext_equal]
pub struct PriorRunView {
    pub structural_fingerprint: u64,
    pub policy_hash: u64,
    pub algorithm_version: u64,
    pub tool_version: Seq<char>,
    pub nodes: Map<Seq<char>, PriorNodeView>,
}

impl View for PriorRun {
    type V = PriorRunView;

    open spec fn view(&self) -> PriorRunView {
        PriorRunView {
            structural_fingerprint: self.structural_fingerprint,
            policy_hash: self.policy_hash,
            algorithm_version: self.algorithm_version,
            tool_version: self.tool_version@,
            nodes: self.nodes@.map_values(|n: PriorNode| n@),
        }
    }
}

/// What a probe found of a durable reference.
#[derive(Debug, Clone, Copy, PartialEq, Eq, Structural)]
pub enum ReferenceExistence {
    /// The referent is there.
    Present,
    /// The referent is gone.
    Absent,
    /// The probe could not tell.
    CannotDetermine,
}

/// The policy hashes of two runs that differ in policy.
#[derive(Debug, Clone, Copy, PartialEq, Eq, Structural)]
pub struct PolicyDiff {
    /// The prior run's policy hash.
    pub prior: u64,
    /// This pipeline's policy hash.
    pub current: u64,
}

/// Why a run is not resumed.
#[derive(Debug, Clone, PartialEq, Eq)]
#[allow(inconsistent_fields)]
pub enum ResumeRefusal {
    /// The structure of the pipeline has changed.
    StructuralMismatch {
        /// The prior run's structural fingerprint.
        prior: u64,
        /// This pipeline's structural fingerprint.
        current: u64,
    },
    /// The fingerprints were made by different algorithms.
    AlgorithmVersionMismatch {
        /// The prior run's algorithm version.
        prior: u64,
        /// This pipeline's algorithm version.
        current: u64,
    },
    /// The prior run was recorded by another version of the tool.
    ToolVersionMismatch {
        /// The prior run's tool version.
        prior: String,
        /// This tool's version.
        current: String,
    },
    /// A durable output that is needed is gone.
    DanglingReference {
        /// The node.
        node: String,
        /// The reference to its output.
        reference: String,
    },
}

/// The contents of a [`ResumeRefusal`].
#[verifier::ext_equal]
#[allow(inconsistent_fields)]
pub enum RefusalView {
    StructuralMismatch { prior: u64, current: u64 },
    AlgorithmVersionMismatch { prior: u64, current: u64 },
    ToolVersionMismatch { prior: Seq<char>, current: Seq<char> },
    DanglingReference { node: Seq<char>, reference: Seq<char> },
}

impl View for ResumeRefusal {
    type V = RefusalView;

    open spec fn view(&self) -> RefusalView {
        match self {
            ResumeRefusal::StructuralMismatch { prior, current } => RefusalView::StructuralMismatch {
                prior: *prior,
                current: *current,
            },
            ResumeRefusal::AlgorithmVersionMismatch { prior, current } => RefusalView::AlgorithmVersionMismatch {
                prior: *prior,
                current: *current,
            },
            ResumeRefusal::ToolVersionMismatch { prior, current } => RefusalView::ToolVersionMismatch {
                prior: prior@,
                current: current@,
            },
            ResumeRefusal::DanglingReference { node, reference } => RefusalView::DanglingReference {
                node: node@,
                reference: reference@,
            },
        }
    }
}

impl RefusalView {
    /// The refusal as text.
    pub open spec fn text(self) -> Seq<char> {
        match self {
            RefusalView::StructuralMismatch { prior, current } => {
                "resume refused: the prior run's structural fingerprint (fnv:"@ + text::hex(prior as nat, 16)
                    + ") differs from this binary's (fnv:"@ + text::hex(current as nat, 16)
                    + ") — the graph changed since the prior run (a node was renamed, rewired, or added/removed). Resume cannot re-plan a different graph."@
            },
            RefusalView::AlgorithmVersionMismatch { prior, current } => {
                "resume refused: cannot compare — the prior run's fingerprint algorithm version ("@ + text::decimal(
                    prior as nat,
                ) + ") is not comparable to this binary's ("@ + text::decimal(current as nat)
                    + "). A fingerprint from a different algorithm version says nothing about topology."@
            },
            RefusalView::ToolVersionMismatch { prior, current } => {
                "resume refused: the prior run was recorded by tool version `"@ + prior + "`, this binary is `"@ + current
                    + "` — v1 makes no cross-tool-version resume promise."@
            },
            RefusalView::DanglingReference { node, reference } => {
                "resume refused: node `"@ + node + "`'s durable output is gone — its recorded reference `"@ + reference
                    + "` no longer exists in storage (a dangling reference). The resume plan fails before any node executes."@
            },
        }
    }
}

impl ResumeRefusal {
    /// The refusal as text.
    #[must_use]
    pub fn render(&self) -> (r: String)
        ensures
            r@ == self@.text(),
    {
        match self {
            ResumeRefusal::StructuralMismatch { prior, current } => {
                let mut out = String::from_str("resume refused: the prior run's structural fingerprint (fnv:");
                out.append(text::hex_text(*prior, 16).as_str());
                out.append(") differs from this binary's (fnv:");
                out.append(text::hex_text(*current, 16).as_str());
                out.append(
                    ") — the graph changed since the prior run (a node was renamed, rewired, or added/removed). Resume cannot re-plan a different graph.",
                );
                out
            },
            ResumeRefusal::AlgorithmVersionMismatch { prior, current } => {
                let mut out = String::from_str(
                    "resume refused: cannot compare — the prior run's fingerprint algorithm version (",
                );
                out.append(text::decimal_text(*prior as u128).as_str());
                out.append(") is not comparable to this binary's (");
                out.append(text::decimal_text(*current as u128).as_str());
                out.append("). A fingerprint from a different algorithm version says nothing about topology.");
                out
            },
            ResumeRefusal::ToolVersionMismatch { prior, current } => {
                let mut out = String::from_str("resume refused: the prior run was recorded by tool version `");
                out.append(prior.as_str());
                out.append("`, this binary is `");
                out.append(current.as_str());
                out.append("` — v1 makes no cross-tool-version resume promise.");
                out
            },
            ResumeRefusal::DanglingReference { node, reference } => {
                let mut out = String::from_str("resume refused: node `");
                out.append(node.as_str());
                out.append("`'s durable output is gone — its recorded reference `");
                out.append(reference.as_str());
                out.append(
                    "` no longer exists in storage (a dangling reference). The resume plan fails before any node executes.",
                );
                out
            },
        }
    }
}

/// A refusal says what was recorded before what there is now; one for a stored output that
/// is gone names the node and its reference.
pub proof fn law_a_refusal_says_what_differs(
    prior: u64,
    current: u64,
    was: Seq<char>,
    is_now: Seq<char>,
    node: Seq<char>,
    reference: Seq<char>,
)
    ensures
        (RefusalView::StructuralMismatch { prior, current }).text()
            == "resume refused: the prior run's structural fingerprint (fnv:"@ + text::hex(prior as nat, 16)
            + ") differs from this binary's (fnv:"@ + text::hex(current as nat, 16)
            + ") — the graph changed since the prior run (a node was renamed, rewired, or added/removed). Resume cannot re-plan a different graph."@,
        (RefusalView::AlgorithmVersionMismatch { prior, current }).text()
            == "resume refused: cannot compare — the prior run's fingerprint algorithm version ("@ + text::decimal(
            prior as nat,
        ) + ") is not comparable to this binary's ("@ + text::decimal(current as nat)
            + "). A fingerprint from a different algorithm version says nothing about topology."@,
        (RefusalView::ToolVersionMismatch { prior: was, current: is_now }).text()
            == "resume refused: the prior run was recorded by tool version `"@ + was + "`, this binary is `"@ + is_now
            + "` — v1 makes no cross-tool-version resume promise."@,
        (RefusalView::DanglingReference { node, reference }).text() == "resume refused: node `"@ + node
            + "`'s durable output is gone — its recorded reference `"@ + reference
            + "` no longer exists in storage (a dangling reference). The resume plan fails before any node executes."@,
{
}

} // verus!
