//! Why a decode refused.

use crate::assembly::{self};
use crate::text;
use vstd::prelude::*;

verus! {

/// The contents of a [`CodecError`].
#[verifier::ext_equal]
#[allow(inconsistent_fields)]
pub enum ErrorView {
    TypeMismatch { expected: Seq<char>, found: Seq<char> },
    UnsupportedVersion { expected: u16, found: u16 },
    Truncated { context: Seq<char>, needed: int, available: int },
    TrailingGarbage { consumed: int, total: int },
    Malformed { context: Seq<char>, detail: Seq<char>, source: Option<Seq<char>> },
    Field { composite: Seq<char>, field: Seq<char>, source: Box<ErrorView> },
}

impl ErrorView {
    /// A structurally invalid encoding without an underlying cause.
    pub open spec fn malformed(context: Seq<char>, detail: Seq<char>) -> Self {
        ErrorView::Malformed { context, detail, source: None }
    }

    /// The failure inside any wrapping in fields.
    pub open spec fn root(self) -> ErrorView
        decreases self,
    {
        match self {
            ErrorView::Field { composite, field, source } => (*source).root(),
            other => other,
        }
    }

    /// The error in words.
    pub open spec fn rendered(self) -> Seq<char>
        decreases self,
    {
        match self {
            ErrorView::TypeMismatch { expected, found } => "payload type mismatch: these bytes were encoded from `"@
                + found + "`, but a `"@ + expected
                + "` was expected — the encoded envelope carries the author-declared stable name, so a value encoded from another type is refused rather than misread"@,
            ErrorView::UnsupportedVersion { expected, found } => "unsupported payload format version: found "@
                + text::decimal(found as nat) + ", expected "@ + text::decimal(expected as nat)
                + " (this build encodes and decodes version "@ + text::decimal(expected as nat) + ")"@,
            ErrorView::Truncated { context, needed, available } => "truncated payload while decoding `"@ + context
                + "`: "@ + text::decimal(needed as nat) + " more byte(s) needed, "@ + text::decimal(available as nat)
                + " available"@,
            ErrorView::TrailingGarbage { consumed, total } => "trailing bytes after a complete payload: "@
                + text::decimal(consumed as nat) + " of "@ + text::decimal(total as nat) + " byte(s) consumed, "@
                + text::decimal(left_over(consumed, total)) + " left over"@,
            ErrorView::Malformed { context, detail, source } => "malformed payload while decoding `"@ + context
                + "`: "@ + detail,
            ErrorView::Field { composite, field, source } => "while decoding field `"@ + field + "` of `"@ + composite
                + "`: "@ + (*source).rendered(),
        }
    }
}

/// How many bytes were not consumed.
pub open spec fn left_over(consumed: int, total: int) -> nat {
    if total > consumed {
        (total - consumed) as nat
    } else {
        0
    }
}

/// Why a decode refused: a type-identity mismatch is not a version mismatch, and neither
/// is bytes that ran out, bytes left over, or bytes that make no value.
#[derive(Debug)]
#[non_exhaustive]
#[allow(inconsistent_fields)]
pub enum CodecError {
    /// The envelope names a different type than the one decoded into.
    TypeMismatch {
        /// The stable name of the type decoded into.
        expected: &'static str,
        /// The stable name that the envelope carries.
        found: String,
    },
    /// The envelope carries another format version.
    UnsupportedVersion {
        /// The version that is decoded.
        expected: u16,
        /// The version that the bytes carry.
        found: u16,
    },
    /// The input ended before the value did.
    Truncated {
        /// What was being decoded.
        context: &'static str,
        /// How many bytes that read needed.
        needed: usize,
        /// How many were left.
        available: usize,
    },
    /// The value decoded, and bytes remained.
    TrailingGarbage {
        /// How many bytes the value consumed.
        consumed: usize,
        /// How many bytes there were.
        total: usize,
    },
    /// The bytes make no value.
    Malformed {
        /// What was being decoded.
        context: &'static str,
        /// What was wrong.
        detail: String,
        /// The text of the underlying cause, where there is one.
        source: Option<String>,
    },
    /// A field of a composite failed to decode.
    Field {
        /// The composite's stable name.
        composite: &'static str,
        /// The field's name.
        field: &'static str,
        /// What went wrong inside the field.
        source: Box<CodecError>,
    },
}

/// The contents of an error.
pub open spec fn error_view(e: CodecError) -> ErrorView
    decreases e,
{
    match e {
        CodecError::TypeMismatch { expected, found } => ErrorView::TypeMismatch { expected: expected@, found: found@ },
        CodecError::UnsupportedVersion { expected, found } => ErrorView::UnsupportedVersion { expected, found },
        CodecError::Truncated { context, needed, available } => ErrorView::Truncated {
            context: context@,
            needed: needed as int,
            available: available as int,
        },
        CodecError::TrailingGarbage { consumed, total } => ErrorView::TrailingGarbage {
            consumed: consumed as int,
            total: total as int,
        },
        CodecError::Malformed { context, detail, source } => ErrorView::Malformed {
            context: context@,
            detail: detail@,
            source: assembly::text_of(source),
        },
        CodecError::Field { composite, field, source } => ErrorView::Field {
            composite: composite@,
            field: field@,
            source: Box::new(error_view(*source)),
        },
    }
}

impl View for CodecError {
    type V = ErrorView;

    open spec fn view(&self) -> ErrorView {
        error_view(*self)
    }
}

impl CodecError {
    /// A structurally invalid encoding, without an underlying cause.
    #[must_use]
    pub fn malformed(context: &'static str, detail: &str) -> (r: Self)
        ensures
            r@ == ErrorView::malformed(context@, detail@),
    {
        CodecError::Malformed { context, detail: String::from_str(detail), source: None }
    }

    /// A structurally invalid encoding, with the text of its underlying cause.
    #[must_use]
    pub fn malformed_from(context: &'static str, detail: &str, source: &str) -> (r: Self)
        ensures
            r@ == (ErrorView::Malformed { context: context@, detail: detail@, source: Some(source@) }),
    {
        CodecError::Malformed { context, detail: String::from_str(detail), source: Some(String::from_str(source)) }
    }

    /// Wraps a failure in the field that it happened in.
    #[must_use]
    pub fn in_field(composite: &'static str, field: &'static str, source: Self) -> (r: Self)
        ensures
            r@ == (ErrorView::Field { composite: composite@, field: field@, source: Box::new(source@) }),
    {
        CodecError::Field { composite, field, source: Box::new(source) }
    }

    /// The failure inside any wrapping in fields.
    #[must_use]
    pub fn root(&self) -> (r: &Self)
        ensures
            r@ == self@.root(),
            !(r is Field),
        decreases self,
    {
        match self {
            CodecError::Field { composite: _, field: _, source } => source.root(),
            _ => self,
        }
    }

    /// The text of the underlying cause, where there is one: that of a malformed
    /// encoding, or the rendered failure inside a field.
    #[must_use]
    pub fn source(&self) -> (r: Option<String>)
        ensures
            assembly::text_of(r) == (match self@ {
                ErrorView::Malformed { context, detail, source } => source,
                ErrorView::Field { composite, field, source } => Some((*source).rendered()),
                _ => None,
            }),
    {
        match self {
            CodecError::Malformed { context: _, detail: _, source } => match source {
                Some(s) => Some(String::from_str(s.as_str())),
                None => None,
            },
            CodecError::Field { composite: _, field: _, source } => Some(source.render()),
            _ => None,
        }
    }

    /// The error in words.
    #[must_use]
    pub fn render(&self) -> (r: String)
        ensures
            r@ == self@.rendered(),
        decreases self,
    {
        match self {
            CodecError::TypeMismatch { expected, found } => {
                let mut s = String::from_str("payload type mismatch: these bytes were encoded from `");
                s.append(found.as_str());
                s.append("`, but a `");
                s.append(expected);
                s.append(
                    "` was expected — the encoded envelope carries the author-declared stable name, so a value encoded from another type is refused rather than misread",
                );
                s
            },
            CodecError::UnsupportedVersion { expected, found } => {
                let mut s = String::from_str("unsupported payload format version: found ");
                s.append(text::decimal_text(*found as u128).as_str());
                s.append(", expected ");
                s.append(text::decimal_text(*expected as u128).as_str());
                s.append(" (this build encodes and decodes version ");
                s.append(text::decimal_text(*expected as u128).as_str());
                s.append(")");
                s
            },
            CodecError::Truncated { context, needed, available } => {
                let mut s = String::from_str("truncated payload while decoding `");
                s.append(context);
                s.append("`: ");
                s.append(text::decimal_text(*needed as u128).as_str());
                s.append(" more byte(s) needed, ");
                s.append(text::decimal_text(*available as u128).as_str());
                s.append(" available");
                s
            },
            CodecError::TrailingGarbage { consumed, total } => {
                let left: usize = if *total > *consumed {
                    *total - *consumed
                } else {
                    0
                };
                let mut s = String::from_str("trailing bytes after a complete payload: ");
                s.append(text::decimal_text(*consumed as u128).as_str());
                s.append(" of ");
                s.append(text::decimal_text(*total as u128).as_str());
                s.append(" byte(s) consumed, ");
                s.append(text::decimal_text(left as u128).as_str());
                s.append(" left over");
                s
            },
            CodecError::Malformed { context, detail, source: _ } => {
                let mut s = String::from_str("malformed payload while decoding `");
                s.append(context);
                s.append("`: ");
                s.append(detail.as_str());
                s
            },
            CodecError::Field { composite, field, source } => {
                let mut s = String::from_str("while decoding field `");
                s.append(field);
                s.append("` of `");
                s.append(composite);
                s.append("`: ");
                s.append(source.render().as_str());
                s
            },
        }
    }
}

/// What is said of a refusal names what was expected and found, or needed and left, or where
/// and why; that of a field comes after the field and its composite, however deep, and what
/// went wrong inside is never a field's.
pub proof fn law_a_refusal_says_what_is_wrong(
    e: ErrorView,
    a: Seq<char>,
    b: Seq<char>,
    source: Option<Seq<char>>,
    m: int,
    n: int,
    v: u16,
    w: u16,
)
    requires
        0 <= m <= n,
    ensures
        (ErrorView::Truncated { context: a, needed: m, available: n }).rendered()
            == "truncated payload while decoding `"@ + a + "`: "@ + text::decimal(m as nat) + " more byte(s) needed, "@
            + text::decimal(n as nat) + " available"@,
        (ErrorView::TrailingGarbage { consumed: m, total: n }).rendered()
            == "trailing bytes after a complete payload: "@ + text::decimal(m as nat) + " of "@ + text::decimal(n as nat)
            + " byte(s) consumed, "@ + text::decimal((n - m) as nat) + " left over"@,
        (ErrorView::UnsupportedVersion { expected: v, found: w }).rendered()
            == "unsupported payload format version: found "@ + text::decimal(w as nat) + ", expected "@ + text::decimal(
            v as nat,
        ) + " (this build encodes and decodes version "@ + text::decimal(v as nat) + ")"@,
        (ErrorView::Malformed { context: a, detail: b, source }).rendered() == "malformed payload while decoding `"@ + a
            + "`: "@ + b,
        (ErrorView::Field { composite: a, field: b, source: Box::new(e) }).rendered() == "while decoding field `"@ + b
            + "` of `"@ + a + "`: "@ + e.rendered(),
        (ErrorView::Field { composite: a, field: b, source: Box::new(e) }).root() == e.root(),
        !(e is Field) ==> e.root() == e,
        !(e.root() is Field),
        ErrorView::malformed(a, b) == (ErrorView::Malformed { context: a, detail: b, source: None }),
{
    lemma_root(e);
}

proof fn lemma_root(e: ErrorView)
    ensures
        !(e.root() is Field),
    decreases e,
{
    match e {
        ErrorView::Field { composite, field, source } => {
            lemma_root(*source);
        },
        _ => {},
    }
}

} // verus!
