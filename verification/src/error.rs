//! The classified error a task's work returns instead of its output.

use vstd::prelude::*;

verus! {

/// The classification a [`TaskError`] carries.
#[derive(Debug, Clone, Copy, PartialEq, Eq, Hash, Structural)]
pub enum TaskErrorClass {
    /// A transient failure that may be retried.
    Retryable,
    /// A failure that retrying cannot fix.
    Permanent,
    /// The task decided that there is nothing to do.
    Skip,
}

impl TaskErrorClass {
    /// The class's name, as it appears in messages.
    pub open spec fn label_spec(self) -> Seq<char> {
        match self {
            TaskErrorClass::Retryable => "retryable"@,
            TaskErrorClass::Permanent => "permanent"@,
            TaskErrorClass::Skip => "skip"@,
        }
    }

    fn label(self) -> (r: &'static str)
        ensures
            r@ == self.label_spec(),
    {
        match self {
            TaskErrorClass::Retryable => "retryable",
            TaskErrorClass::Permanent => "permanent",
            TaskErrorClass::Skip => "skip",
        }
    }
}

/// What a [`TaskError`] holds: its class, its message, and the text of the
/// underlying cause where there is one.
#[verifier::ext_equal]
pub struct TaskErrorView {
    pub class: TaskErrorClass,
    pub message: Seq<char>,
    pub source: Option<Seq<char>>,
}

/// The error a task's work returns instead of its output: a class, a message, and
/// optionally the rendered underlying cause.
#[derive(Debug)]
pub struct TaskError {
    class: TaskErrorClass,
    message: String,
    source: Option<String>,
}

impl View for TaskError {
    type V = TaskErrorView;

    closed spec fn view(&self) -> TaskErrorView {
        TaskErrorView {
            class: self.class,
            message: self.message@,
            source: match self.source {
                Some(s) => Some(s@),
                None => None,
            },
        }
    }
}

impl TaskError {
    fn new(class: TaskErrorClass, message: &str) -> (r: Self)
        ensures
            r@ == (TaskErrorView { class, message: message@, source: None }),
    {
        TaskError { class, message: String::from_str(message), source: None }
    }

    fn with_source(class: TaskErrorClass, message: &str, source: &str) -> (r: Self)
        ensures
            r@ == (TaskErrorView { class, message: message@, source: Some(source@) }),
    {
        TaskError { class, message: String::from_str(message), source: Some(String::from_str(source)) }
    }

    /// A retry-eligible failure.
    #[must_use]
    pub fn retryable(message: &str) -> (r: Self)
        ensures
            r@ == (TaskErrorView { class: TaskErrorClass::Retryable, message: message@, source: None }),
    {
        TaskError::new(TaskErrorClass::Retryable, message)
    }

    /// A retry-eligible failure that carries the text of its cause.
    #[must_use]
    pub fn retryable_from(message: &str, source: &str) -> (r: Self)
        ensures
            r@ == (TaskErrorView {
                class: TaskErrorClass::Retryable,
                message: message@,
                source: Some(source@),
            }),
    {
        TaskError::with_source(TaskErrorClass::Retryable, message, source)
    }

    /// A permanent failure.
    #[must_use]
    pub fn permanent(message: &str) -> (r: Self)
        ensures
            r@ == (TaskErrorView { class: TaskErrorClass::Permanent, message: message@, source: None }),
    {
        TaskError::new(TaskErrorClass::Permanent, message)
    }

    /// A permanent failure that carries the text of its cause.
    #[must_use]
    pub fn permanent_from(message: &str, source: &str) -> (r: Self)
        ensures
            r@ == (TaskErrorView {
                class: TaskErrorClass::Permanent,
                message: message@,
                source: Some(source@),
            }),
    {
        TaskError::with_source(TaskErrorClass::Permanent, message, source)
    }

    /// A deliberate skip.
    #[must_use]
    pub fn skip(message: &str) -> (r: Self)
        ensures
            r@ == (TaskErrorView { class: TaskErrorClass::Skip, message: message@, source: None }),
    {
        TaskError::new(TaskErrorClass::Skip, message)
    }

    /// The classification this error carries.
    #[must_use]
    pub fn class(&self) -> (r: TaskErrorClass)
        ensures
            r == self@.class,
    {
        self.class
    }

    /// The human-readable message.
    #[must_use]
    pub fn message(&self) -> (r: &str)
        ensures
            r@ == self@.message,
    {
        self.message.as_str()
    }

    /// The text of the underlying cause, if any.
    #[must_use]
    pub fn source(&self) -> (r: Option<&str>)
        ensures
            match r {
                Some(s) => self@.source == Some(s@),
                None => self@.source is None,
            },
    {
        match &self.source {
            Some(s) => Some(s.as_str()),
            None => None,
        }
    }

    /// Whether this error is retry-eligible.
    #[must_use]
    pub fn is_retryable(&self) -> (r: bool)
        ensures
            r == (self@.class == TaskErrorClass::Retryable),
    {
        self.class == TaskErrorClass::Retryable
    }

    /// Whether this error is a permanent failure.
    #[must_use]
    pub fn is_permanent(&self) -> (r: bool)
        ensures
            r == (self@.class == TaskErrorClass::Permanent),
    {
        self.class == TaskErrorClass::Permanent
    }

    /// Whether this error is a deliberate skip.
    #[must_use]
    pub fn is_skip(&self) -> (r: bool)
        ensures
            r == (self@.class == TaskErrorClass::Skip),
    {
        self.class == TaskErrorClass::Skip
    }

    /// The error as one line: its class, a colon and its message.
    #[must_use]
    pub fn render(&self) -> (r: String)
        ensures
            r@ == self@.class.label_spec() + ": "@ + self@.message,
    {
        let mut out = String::from_str(self.class.label());
        out.append(": ");
        out.append(self.message.as_str());
        out
    }
}

/// Why a durable reference could not be turned back into its value.
#[derive(Debug, Clone, Copy, PartialEq, Eq, Hash, Structural)]
pub enum RehydrateClass {
    /// The referent is gone.
    Absent,
    /// The referent could not be reached.
    Unreachable,
    /// The referent is there but cannot be read as the value.
    Corrupt,
}

/// The failure of reconstructing a value from its durable reference.
#[derive(Debug)]
pub struct RehydrateError {
    pub class: RehydrateClass,
    pub message: String,
}

impl RehydrateError {
    /// Whether the referent is gone.
    #[must_use]
    pub fn is_absent(&self) -> (r: bool)
        ensures
            r == (self.class == RehydrateClass::Absent),
    {
        self.class == RehydrateClass::Absent
    }
}

/// The classes go by their names.
pub proof fn law_error_classes_have_names(class: TaskErrorClass)
    ensures
        class == TaskErrorClass::Retryable ==> class.label_spec() == "retryable"@,
        class == TaskErrorClass::Permanent ==> class.label_spec() == "permanent"@,
        class == TaskErrorClass::Skip ==> class.label_spec() == "skip"@,
{
}

} // verus!
