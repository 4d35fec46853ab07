//! The outcome of assembly.

use super::checks;
use super::encoding;
use super::graph;
use super::problem::{self, AssemblyError, Warning};
use super::promises;
use super::FingerprintSlot;
use crate::binding::ReceiveMode;
use crate::flow::{self, Pipeline, PipelineView};
use crate::handle::NodeId;
use vstd::prelude::*;

verus! {

/// What assembly hands to the runtime.
#[derive(Debug, Clone, PartialEq, Eq)]
pub struct AssemblyArtifact {
    ids: Vec<NodeId>,
    consumer_counts: Vec<u32>,
    remaining_deps: Vec<u32>,
    order: Vec<NodeId>,
    fingerprint: FingerprintSlot,
    env_allowlist: Vec<String>,
    warnings: Vec<Warning>,
    canonical: Vec<u8>,
}

/// The contents of an [`AssemblyArtifact`]: identities, consumer counts and
/// dependency counts by node in name order, the execution order, the fingerprints,
/// the environment allowlist, the warnings and the canonical byte form.
#[verifier::ext_equal]
pub struct ArtifactView {
    pub ids: Seq<NodeId>,
    pub consumer_counts: Seq<u32>,
    pub remaining_deps: Seq<u32>,
    pub order: Seq<NodeId>,
    pub fingerprint: FingerprintSlot,
    pub env_allowlist: Seq<Seq<char>>,
    pub warnings: Seq<Seq<char>>,
    pub canonical: Seq<u8>,
}

/// Whether the identity comes first at place `i`.
pub open spec fn first_at(ids: Seq<NodeId>, id: NodeId, i: int) -> bool {
    &&& 0 <= i < ids.len()
    &&& ids[i] == id
    &&& forall|j: int| 0 <= j < i ==> #[trigger] ids[j] != id
}

/// The value at the first place of the identity.
pub open spec fn at_first(ids: Seq<NodeId>, values: Seq<u32>, id: NodeId) -> Option<u32> {
    if exists|i: int| first_at(ids, id, i) {
        Some(values[choose|i: int| first_at(ids, id, i)])
    } else {
        None
    }
}

impl ArtifactView {
    /// What assembly makes of a pipeline without problems.
    pub open spec fn of(p: PipelineView) -> Self {
        ArtifactView {
            ids: Seq::new(p.nodes.len(), |i: int| p.nodes[i].id),
            consumer_counts: Seq::new(p.nodes.len(), |i: int| graph::capped(graph::consumer_count(p, i))),
            remaining_deps: Seq::new(p.nodes.len(), |i: int| graph::capped(graph::remaining_deps(p, i))),
            order: graph::execution_order(p),
            fingerprint: encoding::fingerprint(p),
            env_allowlist: p.env_allowlist,
            warnings: checks::warnings(p, p.nodes.len() as int),
            canonical: encoding::canonical_encoding(p),
        }
    }
}

impl View for AssemblyArtifact {
    type V = ArtifactView;

    closed spec fn view(&self) -> ArtifactView {
        ArtifactView {
            ids: self.ids@,
            consumer_counts: self.consumer_counts@,
            remaining_deps: self.remaining_deps@,
            order: self.order@,
            fingerprint: self.fingerprint,
            env_allowlist: self.env_allowlist@.map_values(|s: String| s@),
            warnings: problem::warning_views(self.warnings@),
            canonical: self.canonical@,
        }
    }
}

fn find_first(ids: &Vec<NodeId>, values: &Vec<u32>, id: NodeId) -> (r: Option<u32>)
    requires
        ids.len() == values.len(),
    ensures
        r == at_first(ids@, values@, id),
{
    let mut i: usize = 0;
    while i < ids.len()
        invariant
            i <= ids.len(),
            ids.len() == values.len(),
            forall|j: int| 0 <= j < i ==> #[trigger] ids@[j] != id,
        decreases ids.len() - i,
    {
        if ids[i] == id {
            proof {
                assert(first_at(ids@, id, i as int));
                let k = choose|k: int| first_at(ids@, id, k);
                if k < i {
                    assert(ids@[k] == id);
                }
            }
            return Some(values[i]);
        }
        i = i + 1;
    }
    None
}

impl AssemblyArtifact {
    /// Every node has its counts.
    pub closed spec fn wf(self) -> bool {
        &&& self.ids.len() == self.consumer_counts.len()
        &&& self.ids.len() == self.remaining_deps.len()
    }

    /// The number of nodes in the execution order.
    #[must_use]
    pub fn node_count(&self) -> (r: usize)
        ensures
            r == self@.order.len(),
    {
        self.order.len()
    }

    /// The number of consumers of the node with the identity.
    #[must_use]
    pub fn consumer_count(&self, id: NodeId) -> (r: Option<u32>)
        requires
            self.wf(),
        ensures
            r == at_first(self@.ids, self@.consumer_counts, id),
    {
        find_first(&self.ids, &self.consumer_counts, id)
    }

    /// The number of distinct nodes that the node with the identity takes data from.
    #[must_use]
    pub fn remaining_dependency_count(&self, id: NodeId) -> (r: Option<u32>)
        requires
            self.wf(),
        ensures
            r == at_first(self@.ids, self@.remaining_deps, id),
    {
        find_first(&self.ids, &self.remaining_deps, id)
    }

    /// The execution order.
    #[must_use]
    pub fn execution_order(&self) -> (r: &[NodeId])
        ensures
            r@ == self@.order,
    {
        self.order.as_slice()
    }

    /// The fingerprints.
    #[must_use]
    pub fn fingerprint(&self) -> (r: FingerprintSlot)
        ensures
            r == self@.fingerprint,
    {
        self.fingerprint
    }

    /// The environment variable names that may be captured.
    #[must_use]
    pub fn env_allowlist(&self) -> (r: &[String])
        ensures
            r@.map_values(|s: String| s@) == self@.env_allowlist,
    {
        self.env_allowlist.as_slice()
    }

    /// The warnings.
    #[must_use]
    pub fn warnings(&self) -> (r: &[Warning])
        ensures
            problem::warning_views(r@) == self@.warnings,
    {
        self.warnings.as_slice()
    }

    /// The canonical byte form.
    #[must_use]
    pub fn canonical_bytes(&self) -> (r: &[u8])
        ensures
            r@ == self@.canonical,
    {
        self.canonical.as_slice()
    }
}

fn collect_ids(pipeline: &Pipeline) -> (r: Vec<NodeId>)
    ensures
        r@ == Seq::new(pipeline@.nodes.len(), |i: int| pipeline@.nodes[i].id),
{
    let mut out: Vec<NodeId> = Vec::new();
    while out.len() < pipeline.len()
        invariant
            out.len() <= pipeline@.nodes.len(),
            forall|i: int| 0 <= i < out.len() ==> #[trigger] out@[i] == pipeline@.nodes[i].id,
        decreases pipeline@.nodes.len() - out.len(),
    {
        let id = pipeline.node_at(out.len()).id();
        out.push(id);
    }
    assert(out@ =~= Seq::new(pipeline@.nodes.len(), |i: int| pipeline@.nodes[i].id));
    out
}

fn copy_texts(list: &[String]) -> (r: Vec<String>)
    ensures
        r@.map_values(|s: String| s@) == list@.map_values(|s: String| s@),
{
    let mut out: Vec<String> = Vec::new();
    let mut i: usize = 0;
    while i < list.len()
        invariant
            i <= list.len(),
            out.len() == i,
            forall|k: int| 0 <= k < i ==> (#[trigger] out@[k])@ == list@[k]@,
        decreases list.len() - i,
    {
        out.push(String::from_str(list[i].as_str()));
        i = i + 1;
    }
    assert(out@.map_values(|s: String| s@) =~= list@.map_values(|s: String| s@));
    out
}

impl Pipeline {
    /// Assembles the pipeline: reports every problem, or hands out what the runtime
    /// needs.
    ///
    /// # Errors
    ///
    /// Every problem of the pipeline, where it has any.
    pub fn assemble(&self) -> (r: Result<AssemblyArtifact, AssemblyError>)
        ensures
            match r {
                Ok(artifact) => checks::problems(self@).len() == 0 && artifact.wf() && artifact@ == ArtifactView::of(
                    self@,
                ),
                Err(error) => checks::problems(self@).len() > 0 && error@ == checks::problems(self@),
            },
            r is Ok ==> forall|i: int, e: int, j: int, f: int|
                promises::is_edge(self@, i, e) && promises::is_edge(self@, j, f) && (i != j || e != f) && (
                #[trigger] self@.nodes[i].edges[e]).mode == ReceiveMode::Owned ==> self@.nodes[i].edges[e].upstream != (
                #[trigger] self@.nodes[j].edges[f]).upstream,
    {
        proof {
            assert forall|i: int, e: int, j: int, f: int|
                checks::problems(self@).len() == 0 && promises::is_edge(self@, i, e) && promises::is_edge(self@, j, f) && (
                i != j || e != f) && (#[trigger] self@.nodes[i].edges[e]).mode
                    == ReceiveMode::Owned implies self@.nodes[i].edges[e].upstream != (
            #[trigger] self@.nodes[j].edges[f]).upstream by {
                if promises::share(self@, i, e, j, f) {
                    promises::law_an_owned_value_is_not_shared(self@, i, e, j, f);
                }
            }
        }
        let problems = checks::find_problems(self);
        if problems.len() > 0 {
            assert(problem::problem_views(problems@).len() == problems.len());
            return Err(AssemblyError::new(problems));
        }
        assert(problem::problem_views(problems@).len() == 0);
        let ids = collect_ids(self);
        let consumer_counts = graph::precompute_consumer_counts(self);
        let remaining_deps = graph::precompute_remaining_deps(self);
        let order = graph::precompute_execution_order(self);
        let warnings = checks::collect_warnings(self, &consumer_counts);
        let canonical = encoding::encode_canonical(self);
        let fingerprint = encoding::compute_fingerprint(self);
        let artifact = AssemblyArtifact {
            ids,
            consumer_counts,
            remaining_deps,
            order,
            fingerprint,
            env_allowlist: copy_texts(self.env_allowlist()),
            warnings,
            canonical,
        };
        assert(artifact@ =~= ArtifactView::of(self@));
        Ok(artifact)
    }

    /// The fingerprints, without assembling.
    #[must_use]
    pub fn fingerprint(&self) -> (r: FingerprintSlot)
        ensures
            r == encoding::fingerprint(self@),
    {
        encoding::compute_fingerprint(self)
    }
}

/// The counts of an assembled pipeline are exact for every node it has, up to what
/// 32 bits hold, and there are none for any other identity.
pub proof fn law_counts_are_exact(p: PipelineView, id: NodeId)
    ensures
        ({
            let a = ArtifactView::of(p);
            let consumers = at_first(a.ids, a.consumer_counts, id);
            let dependencies = at_first(a.ids, a.remaining_deps, id);
            if p.has_node(id) {
                &&& consumers == Some(graph::capped(graph::consumer_count(p, p.index_of(id))))
                &&& dependencies == Some(graph::capped(graph::remaining_deps(p, p.index_of(id))))
            } else {
                consumers is None && dependencies is None
            }
        }),
{
    let a = ArtifactView::of(p);
    if p.has_node(id) {
        flow::lemma_resolves(p, id);
        let i = p.index_of(id);
        assert(first_at(a.ids, id, i)) by {
            assert forall|j: int| 0 <= j < i implies #[trigger] a.ids[j] != id by {
                assert(p.nodes[j].id != id);
            }
        }
        let k = choose|k: int| first_at(a.ids, id, k);
        if k < i {
            assert(a.ids[k] == id);
            assert(p.nodes[k].id == id);
        }
        assert(k == i);
    } else if exists|i: int| first_at(a.ids, id, i) {
        let i = choose|i: int| first_at(a.ids, id, i);
        assert(p.nodes[i].id == id);
    }
}

} // verus!
