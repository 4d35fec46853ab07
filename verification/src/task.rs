//! The task abstraction: what a unit of work declares about itself.

use vstd::prelude::*;

verus! {

/// Which kind of thread a task's work belongs on.
#[derive(Debug, Clone, Copy, PartialEq, Eq, Hash, Structural)]
pub enum ExecutionClass {
    /// Await-bound work, run on the asynchronous runtime. The default.
    AwaitBound,
    /// Blocking work, run on a dedicated pool.
    Blocking,
    /// Compute-bound work, run on a fixed pool sized to the processor allocation.
    Compute,
}

impl Default for ExecutionClass {
    fn default() -> (r: Self)
        ensures
            r == ExecutionClass::AwaitBound,
    {
        ExecutionClass::AwaitBound
    }
}

impl ExecutionClass {
    /// The class's name, as it appears in messages.
    pub open spec fn label_spec(self) -> Seq<char> {
        match self {
            ExecutionClass::AwaitBound => "AwaitBound"@,
            ExecutionClass::Blocking => "Blocking"@,
            ExecutionClass::Compute => "Compute"@,
        }
    }

    /// The class's name, as it appears in messages.
    #[must_use]
    pub fn label(self) -> (r: &'static str)
        ensures
            r@ == self.label_spec(),
    {
        match self {
            ExecutionClass::AwaitBound => "AwaitBound",
            ExecutionClass::Blocking => "Blocking",
            ExecutionClass::Compute => "Compute",
        }
    }
}

/// The atomic unit of work: the type it consumes, the type it produces, and the
/// execution class it declares. How the work itself is driven belongs to the
/// runtime that embeds this crate.
pub trait Task {
    /// The type of value the task consumes; `()` when it consumes nothing.
    type Input;

    /// The type of value the task produces.
    type Output: 'static;

    /// The declared execution class; await-bound unless the task states another.
    const EXECUTION_CLASS: ExecutionClass = ExecutionClass::AwaitBound;
}

/// The classes go by their names.
pub proof fn law_execution_classes_have_names(class: ExecutionClass)
    ensures
        class == ExecutionClass::AwaitBound ==> class.label_spec() == "AwaitBound"@,
        class == ExecutionClass::Blocking ==> class.label_spec() == "Blocking"@,
        class == ExecutionClass::Compute ==> class.label_spec() == "Compute"@,
{
}

} // verus!
