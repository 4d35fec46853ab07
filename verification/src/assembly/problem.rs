//! What assembly reports: problems, which fail it, and warnings, which do not.

use crate::text;
use vstd::prelude::*;

verus! {

/// The kind of an assembly [`Problem`].
#[derive(Debug, Clone, Copy, PartialEq, Eq, Hash, Structural)]
#[non_exhaustive]
pub enum ProblemKind {
    /// Several registrations used one name.
    DuplicateNodeName,
    /// No node was registered.
    EmptyPipeline,
    /// An execution-class override does not fit the work that the task declares.
    InvalidExecutionClassOverride,
    /// A durable node whose output type does not implement the durable contract.
    DurableWithoutContract,
    /// An owned demand on a value with several consumers, or on the input of a node
    /// that retries.
    OwnershipModeConflict,
    /// A teardown that declares a cost.
    NonzeroTeardownCost,
}

impl ProblemKind {
    /// The kind's name, as it appears in messages.
    pub open spec fn label_spec(self) -> Seq<char> {
        match self {
            ProblemKind::DuplicateNodeName => "duplicate node name"@,
            ProblemKind::EmptyPipeline => "empty pipeline"@,
            ProblemKind::InvalidExecutionClassOverride => "invalid execution-class override"@,
            ProblemKind::DurableWithoutContract => "durable node without the durable-output contract"@,
            ProblemKind::OwnershipModeConflict => "ownership-mode conflict"@,
            ProblemKind::NonzeroTeardownCost => "nonzero teardown cost"@,
        }
    }

    pub(crate) fn label(self) -> (r: &'static str)
        ensures
            r@ == self.label_spec(),
    {
        match self {
            ProblemKind::DuplicateNodeName => "duplicate node name",
            ProblemKind::EmptyPipeline => "empty pipeline",
            ProblemKind::InvalidExecutionClassOverride => "invalid execution-class override",
            ProblemKind::DurableWithoutContract => "durable node without the durable-output contract",
            ProblemKind::OwnershipModeConflict => "ownership-mode conflict",
            ProblemKind::NonzeroTeardownCost => "nonzero teardown cost",
        }
    }
}

/// One assembly problem.
#[derive(Debug, Clone, PartialEq, Eq)]
pub struct Problem {
    kind: ProblemKind,
    message: String,
    declaration_count: Option<usize>,
}

/// The contents of a [`Problem`].
#[verifier::ext_equal]
pub struct ProblemView {
    pub kind: ProblemKind,
    pub message: Seq<char>,
    pub declaration_count: Option<usize>,
}

impl View for Problem {
    type V = ProblemView;

    closed spec fn view(&self) -> ProblemView {
        ProblemView { kind: self.kind, message: self.message@, declaration_count: self.declaration_count }
    }
}

impl Problem {
    pub(crate) fn new(kind: ProblemKind, message: String) -> (r: Self)
        ensures
            r@ == (ProblemView { kind, message: message@, declaration_count: None }),
    {
        Problem { kind, message, declaration_count: None }
    }

    pub(crate) fn counted(kind: ProblemKind, message: String, count: usize) -> (r: Self)
        ensures
            r@ == (ProblemView { kind, message: message@, declaration_count: Some(count) }),
    {
        Problem { kind, message, declaration_count: Some(count) }
    }

    /// The kind.
    #[must_use]
    pub fn kind(&self) -> (r: ProblemKind)
        ensures
            r == self@.kind,
    {
        self.kind
    }

    /// The message.
    #[must_use]
    pub fn message(&self) -> (r: &str)
        ensures
            r@ == self@.message,
    {
        self.message.as_str()
    }

    /// Of a duplicate name, how many registrations used it.
    #[must_use]
    pub fn declaration_count(&self) -> (r: Option<usize>)
        ensures
            r == self@.declaration_count,
    {
        self.declaration_count
    }
}

/// The contents of a list of problems.
pub open spec fn problem_views(list: Seq<Problem>) -> Seq<ProblemView> {
    list.map_values(|p: Problem| p@)
}

/// A condition that assembly reports without failing.
#[derive(Debug, Clone, PartialEq, Eq)]
pub struct Warning {
    message: String,
}

impl View for Warning {
    type V = Seq<char>;

    closed spec fn view(&self) -> Seq<char> {
        self.message@
    }
}

impl Warning {
    pub(crate) fn new(message: String) -> (r: Self)
        ensures
            r@ == message@,
    {
        Warning { message }
    }

    /// The message.
    #[must_use]
    pub fn message(&self) -> (r: &str)
        ensures
            r@ == self@,
    {
        self.message.as_str()
    }
}

/// The texts of a list of warnings.
pub open spec fn warning_views(list: Seq<Warning>) -> Seq<Seq<char>> {
    list.map_values(|w: Warning| w@)
}

/// The failure of assembly: every problem that was found.
#[derive(Debug, Clone, PartialEq, Eq)]
pub struct AssemblyError {
    problems: Vec<Problem>,
}

/// One line per problem.
pub open spec fn problem_lines(list: Seq<ProblemView>) -> Seq<char>
    decreases list.len(),
{
    if list.len() == 0 {
        Seq::empty()
    } else {
        problem_lines(list.drop_last()) + "  - "@ + list.last().message + "\n"@
    }
}

impl View for AssemblyError {
    type V = Seq<ProblemView>;

    closed spec fn view(&self) -> Seq<ProblemView> {
        problem_views(self.problems@)
    }
}

impl AssemblyError {
    pub(crate) fn new(problems: Vec<Problem>) -> (r: Self)
        ensures
            r@ == problem_views(problems@),
    {
        AssemblyError { problems }
    }

    /// Every problem that was found.
    #[must_use]
    pub fn problems(&self) -> (r: &[Problem])
        ensures
            problem_views(r@) == self@,
    {
        self.problems.as_slice()
    }

    /// The failure as text: a line that counts the problems, and a line for each.
    #[must_use]
    pub fn render(&self) -> (r: String)
        ensures
            r@ == "assembly failed with "@ + text::decimal(self@.len()) + " problem(s):\n"@ + problem_lines(self@),
    {
        let mut out = String::from_str("assembly failed with ");
        out.append(text::decimal_text(self.problems.len() as u128).as_str());
        out.append(" problem(s):\n");
        let ghost head = out@;
        let mut i: usize = 0;
        assert(head + problem_lines(self@.take(0)) =~= head);
        while i < self.problems.len()
            invariant
                i <= self.problems.len(),
                out@ == head + problem_lines(self@.take(i as int)),
            decreases self.problems.len() - i,
        {
            proof {
                assert(self@.take(i + 1).drop_last() =~= self@.take(i as int));
                assert(self@.take(i + 1).last() == self.problems@[i as int]@);
            }
            out.append("  - ");
            out.append(self.problems[i].message());
            out.append("\n");
            i = i + 1;
            assert(out@ =~= head + problem_lines(self@.take(i as int)));
        }
        assert(self@.take(i as int) =~= self@);
        out
    }
}

/// Each problem has a line of its own, after a dash, in the order in which they were found.
pub proof fn law_each_problem_has_a_line(list: Seq<ProblemView>, problem: ProblemView, kind: ProblemKind)
    ensures
        problem_lines(Seq::empty()).len() == 0,
        problem_lines(list.push(problem)) == problem_lines(list) + "  - "@ + problem.message + "\n"@,
        kind == ProblemKind::DuplicateNodeName ==> kind.label_spec() == "duplicate node name"@,
        kind == ProblemKind::EmptyPipeline ==> kind.label_spec() == "empty pipeline"@,
        kind == ProblemKind::InvalidExecutionClassOverride ==> kind.label_spec() == "invalid execution-class override"@,
        kind == ProblemKind::DurableWithoutContract ==> kind.label_spec()
            == "durable node without the durable-output contract"@,
        kind == ProblemKind::OwnershipModeConflict ==> kind.label_spec() == "ownership-mode conflict"@,
        kind == ProblemKind::NonzeroTeardownCost ==> kind.label_spec() == "nonzero teardown cost"@,
{
    assert(list.push(problem).drop_last() =~= list);
}

} // verus!
