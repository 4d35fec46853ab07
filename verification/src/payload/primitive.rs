//! Codecs of the primitive types: fixed-width little-endian integers, truth values, text
//! and the empty value.

use super::{decode_str, encode_str, Codec, CodecError, Cursor, ErrorView, Parsed};
use crate::bytes;
use crate::payload;
use crate::text;
use vstd::prelude::*;
use vstd::utf8::*;

verus! {

/// A number in two's complement of `width` bytes.
pub open spec fn wrapped(v: int, width: nat) -> nat {
    if v < 0 {
        (v + bytes::bound(width)) as nat
    } else {
        v as nat
    }
}

/// The number that has a form in two's complement of `width` bytes.
pub open spec fn unwrapped(n: nat, width: nat) -> int {
    if n < bytes::bound(width) / 2 {
        n as int
    } else {
        n - bytes::bound(width)
    }
}

/// Reads a number in two's complement of `width` bytes.
pub open spec fn parse_sint(bytes: Seq<u8>, width: nat, context: Seq<char>) -> Parsed<int> {
    match payload::parse_uint(bytes, width, context) {
        Ok((n, k)) => Ok((unwrapped(n, width), k)),
        Err(e) => Err(e),
    }
}

/// Whether `width` is that of an integer type.
pub open spec fn integer_width(width: nat) -> bool {
    width == 1 || width == 2 || width == 4 || width == 8 || width == 16
}

/// Whether a number has a form in two's complement of `width` bytes.
pub open spec fn fits_signed(v: int, width: nat) -> bool {
    -(bytes::bound(width) / 2) <= v < bytes::bound(width) / 2
}

proof fn lemma_sint_round_trip(v: int, width: nat, rest: Seq<u8>, context: Seq<char>)
    requires
        integer_width(width),
        fits_signed(v, width),
    ensures
        parse_sint(bytes::le(wrapped(v, width), width) + rest, width, context) == Ok::<_, ErrorView>((v, width as int)),
        bytes::le(wrapped(v, width), width).len() == width,
{
    bytes::lemma_bounds();
    bytes::lemma_le_len(wrapped(v, width), width);
    payload::lemma_uint_round_trip(wrapped(v, width), width, rest, context);
}

proof fn lemma_sint_canonical(bytes: Seq<u8>, width: nat, context: Seq<char>)
    requires
        integer_width(width),
        parse_sint(bytes, width, context) is Ok,
    ensures
        parse_sint(bytes, width, context)->Ok_0.1 == width,
        width <= bytes.len(),
        fits_signed(parse_sint(bytes, width, context)->Ok_0.0, width),
        bytes.take(width as int) == bytes::le(wrapped(parse_sint(bytes, width, context)->Ok_0.0, width), width),
{
    bytes::lemma_bounds();
    payload::lemma_uint_canonical(bytes, width, context);
}

/// Half the number of values of `width` bytes.
fn half_range(width: usize) -> (r: u128)
    requires
        integer_width(width as nat),
    ensures
        r == bytes::bound(width as nat) / 2,
        0x80 <= r <= 0x8000_0000_0000_0000_0000_0000_0000_0000,
{
    proof {
        bytes::lemma_bounds();
    }
    if width == 1 {
        0x80
    } else if width == 2 {
        0x8000
    } else if width == 4 {
        0x8000_0000
    } else if width == 8 {
        0x8000_0000_0000_0000
    } else {
        0x8000_0000_0000_0000_0000_0000_0000_0000
    }
}

/// Appends a number in two's complement of `width` bytes.
fn push_signed(out: &mut Vec<u8>, v: i128, width: usize)
    requires
        integer_width(width as nat),
        fits_signed(v as int, width as nat),
    ensures
        final(out)@ == old(out)@ + bytes::le(wrapped(v as int, width as nat), width as nat),
{
    proof {
        bytes::lemma_bounds();
    }
    let n: u128 = if v < 0 {
        let half: u128 = half_range(width);
        let low: i128 = -((half - 1) as i128) - 1;
        (v - low) as u128 + half
    } else {
        v as u128
    };
    assert(n == wrapped(v as int, width as nat));
    bytes::push_le(out, n, width);
}

/// Reads a number in two's complement of `width` bytes.
fn take_signed(cursor: &mut Cursor<'_>, width: usize, context: &'static str) -> (r: Result<i128, CodecError>)
    requires
        old(cursor).wf(),
        integer_width(width as nat),
    ensures
        final(cursor).wf(),
        match r {
            Ok(v) => parse_sint(old(cursor)@.rest(), width as nat, context@) == Ok::<_, ErrorView>(
                (v as int, width as int),
            ) && fits_signed(v as int, width as nat) && final(cursor)@ == old(cursor)@.advanced(width as int),
            Err(e) => parse_sint(old(cursor)@.rest(), width as nat, context@) == Err::<(int, int), _>(e@)
                && final(cursor)@ == old(cursor)@,
        },
{
    match cursor.take_uint(width, context) {
        Ok(n) => {
            proof {
                bytes::lemma_bounds();
                lemma_sint_canonical(old(cursor)@.rest(), width as nat, context@);
                payload::lemma_uint_canonical(old(cursor)@.rest(), width as nat, context@);
            }
            let half: u128 = half_range(width);
            if n < half {
                Ok(n as i128)
            } else {
                let low: i128 = -((half - 1) as i128) - 1;
                Ok((n - half) as i128 + low)
            }
        },
        Err(e) => Err(e),
    }
}

impl Codec for u8 {
    type Model = u8;

    open spec fn model(&self) -> u8 {
        *self
    }

    open spec fn body(v: u8) -> Seq<u8> {
        bytes::le(v as nat, 1)
    }

    open spec fn parse(bytes: Seq<u8>) -> Parsed<u8> {
        match payload::parse_uint(bytes, 1, "u8"@) {
            Ok((n, k)) => Ok((n as u8, k)),
            Err(e) => Err(e),
        }
    }

    open spec fn sound() -> bool {
        true
    }

    open spec fn representable(v: u8) -> bool {
        true
    }

    fn encode_body(&self, out: &mut Vec<u8>) {
        bytes::push_le(out, *self as u128, 1);
    }

    fn decode_body(cursor: &mut Cursor<'_>) -> (r: Result<Self, CodecError>) {
        match cursor.take_uint(1, "u8") {
            Ok(n) => {
                proof {
                    bytes::lemma_bounds();
                    payload::lemma_uint_canonical(old(cursor)@.rest(), 1, "u8"@);
                }
                Ok(n as u8)
            },
            Err(e) => Err(e),
        }
    }

    proof fn law_round_trip(v: u8, rest: Seq<u8>) {
        bytes::lemma_bounds();
        bytes::lemma_le_len(v as nat, 1);
        payload::lemma_uint_round_trip(v as nat, 1, rest, "u8"@);
    }

    proof fn law_canonical(bytes: Seq<u8>) {
        bytes::lemma_bounds();
        payload::lemma_uint_canonical(bytes, 1, "u8"@);
    }
}

impl Codec for u16 {
    type Model = u16;

    open spec fn model(&self) -> u16 {
        *self
    }

    open spec fn body(v: u16) -> Seq<u8> {
        bytes::le(v as nat, 2)
    }

    open spec fn parse(bytes: Seq<u8>) -> Parsed<u16> {
        match payload::parse_uint(bytes, 2, "u16"@) {
            Ok((n, k)) => Ok((n as u16, k)),
            Err(e) => Err(e),
        }
    }

    open spec fn sound() -> bool {
        true
    }

    open spec fn representable(v: u16) -> bool {
        true
    }

    fn encode_body(&self, out: &mut Vec<u8>) {
        bytes::push_le(out, *self as u128, 2);
    }

    fn decode_body(cursor: &mut Cursor<'_>) -> (r: Result<Self, CodecError>) {
        match cursor.take_uint(2, "u16") {
            Ok(n) => {
                proof {
                    bytes::lemma_bounds();
                    payload::lemma_uint_canonical(old(cursor)@.rest(), 2, "u16"@);
                }
                Ok(n as u16)
            },
            Err(e) => Err(e),
        }
    }

    proof fn law_round_trip(v: u16, rest: Seq<u8>) {
        bytes::lemma_bounds();
        bytes::lemma_le_len(v as nat, 2);
        payload::lemma_uint_round_trip(v as nat, 2, rest, "u16"@);
    }

    proof fn law_canonical(bytes: Seq<u8>) {
        bytes::lemma_bounds();
        payload::lemma_uint_canonical(bytes, 2, "u16"@);
    }
}

impl Codec for u32 {
    type Model = u32;

    open spec fn model(&self) -> u32 {
        *self
    }

    open spec fn body(v: u32) -> Seq<u8> {
        bytes::le(v as nat, 4)
    }

    open spec fn parse(bytes: Seq<u8>) -> Parsed<u32> {
        match payload::parse_uint(bytes, 4, "u32"@) {
            Ok((n, k)) => Ok((n as u32, k)),
            Err(e) => Err(e),
        }
    }

    open spec fn sound() -> bool {
        true
    }

    open spec fn representable(v: u32) -> bool {
        true
    }

    fn encode_body(&self, out: &mut Vec<u8>) {
        bytes::push_le(out, *self as u128, 4);
    }

    fn decode_body(cursor: &mut Cursor<'_>) -> (r: Result<Self, CodecError>) {
        match cursor.take_uint(4, "u32") {
            Ok(n) => {
                proof {
                    bytes::lemma_bounds();
                    payload::lemma_uint_canonical(old(cursor)@.rest(), 4, "u32"@);
                }
                Ok(n as u32)
            },
            Err(e) => Err(e),
        }
    }

    proof fn law_round_trip(v: u32, rest: Seq<u8>) {
        bytes::lemma_bounds();
        bytes::lemma_le_len(v as nat, 4);
        payload::lemma_uint_round_trip(v as nat, 4, rest, "u32"@);
    }

    proof fn law_canonical(bytes: Seq<u8>) {
        bytes::lemma_bounds();
        payload::lemma_uint_canonical(bytes, 4, "u32"@);
    }
}

impl Codec for u64 {
    type Model = u64;

    open spec fn model(&self) -> u64 {
        *self
    }

    open spec fn body(v: u64) -> Seq<u8> {
        bytes::le(v as nat, 8)
    }

    open spec fn parse(bytes: Seq<u8>) -> Parsed<u64> {
        match payload::parse_uint(bytes, 8, "u64"@) {
            Ok((n, k)) => Ok((n as u64, k)),
            Err(e) => Err(e),
        }
    }

    open spec fn sound() -> bool {
        true
    }

    open spec fn representable(v: u64) -> bool {
        true
    }

    fn encode_body(&self, out: &mut Vec<u8>) {
        bytes::push_le(out, *self as u128, 8);
    }

    fn decode_body(cursor: &mut Cursor<'_>) -> (r: Result<Self, CodecError>) {
        match cursor.take_uint(8, "u64") {
            Ok(n) => {
                proof {
                    bytes::lemma_bounds();
                    payload::lemma_uint_canonical(old(cursor)@.rest(), 8, "u64"@);
                }
                Ok(n as u64)
            },
            Err(e) => Err(e),
        }
    }

    proof fn law_round_trip(v: u64, rest: Seq<u8>) {
        bytes::lemma_bounds();
        bytes::lemma_le_len(v as nat, 8);
        payload::lemma_uint_round_trip(v as nat, 8, rest, "u64"@);
    }

    proof fn law_canonical(bytes: Seq<u8>) {
        bytes::lemma_bounds();
        payload::lemma_uint_canonical(bytes, 8, "u64"@);
    }
}

impl Codec for u128 {
    type Model = u128;

    open spec fn model(&self) -> u128 {
        *self
    }

    open spec fn body(v: u128) -> Seq<u8> {
        bytes::le(v as nat, 16)
    }

    open spec fn parse(bytes: Seq<u8>) -> Parsed<u128> {
        match payload::parse_uint(bytes, 16, "u128"@) {
            Ok((n, k)) => Ok((n as u128, k)),
            Err(e) => Err(e),
        }
    }

    open spec fn sound() -> bool {
        true
    }

    open spec fn representable(v: u128) -> bool {
        true
    }

    fn encode_body(&self, out: &mut Vec<u8>) {
        bytes::push_le(out, *self as u128, 16);
    }

    fn decode_body(cursor: &mut Cursor<'_>) -> (r: Result<Self, CodecError>) {
        match cursor.take_uint(16, "u128") {
            Ok(n) => {
                proof {
                    bytes::lemma_bounds();
                    payload::lemma_uint_canonical(old(cursor)@.rest(), 16, "u128"@);
                }
                Ok(n as u128)
            },
            Err(e) => Err(e),
        }
    }

    proof fn law_round_trip(v: u128, rest: Seq<u8>) {
        bytes::lemma_bounds();
        bytes::lemma_le_len(v as nat, 16);
        payload::lemma_uint_round_trip(v as nat, 16, rest, "u128"@);
    }

    proof fn law_canonical(bytes: Seq<u8>) {
        bytes::lemma_bounds();
        payload::lemma_uint_canonical(bytes, 16, "u128"@);
    }
}

impl Codec for i8 {
    type Model = i8;

    open spec fn model(&self) -> i8 {
        *self
    }

    open spec fn body(v: i8) -> Seq<u8> {
        bytes::le(wrapped(v as int, 1), 1)
    }

    open spec fn parse(bytes: Seq<u8>) -> Parsed<i8> {
        match parse_sint(bytes, 1, "i8"@) {
            Ok((v, k)) => Ok((v as i8, k)),
            Err(e) => Err(e),
        }
    }

    open spec fn sound() -> bool {
        true
    }

    open spec fn representable(v: i8) -> bool {
        true
    }

    fn encode_body(&self, out: &mut Vec<u8>) {
        proof {
            bytes::lemma_bounds();
        }
        push_signed(out, *self as i128, 1);
    }

    fn decode_body(cursor: &mut Cursor<'_>) -> (r: Result<Self, CodecError>) {
        match take_signed(cursor, 1, "i8") {
            Ok(v) => {
                proof {
                    bytes::lemma_bounds();
                }
                Ok(v as i8)
            },
            Err(e) => Err(e),
        }
    }

    proof fn law_round_trip(v: i8, rest: Seq<u8>) {
        bytes::lemma_bounds();
        lemma_sint_round_trip(v as int, 1, rest, "i8"@);
    }

    proof fn law_canonical(bytes: Seq<u8>) {
        bytes::lemma_bounds();
        lemma_sint_canonical(bytes, 1, "i8"@);
    }
}

impl Codec for i16 {
    type Model = i16;

    open spec fn model(&self) -> i16 {
        *self
    }

    open spec fn body(v: i16) -> Seq<u8> {
        bytes::le(wrapped(v as int, 2), 2)
    }

    open spec fn parse(bytes: Seq<u8>) -> Parsed<i16> {
        match parse_sint(bytes, 2, "i16"@) {
            Ok((v, k)) => Ok((v as i16, k)),
            Err(e) => Err(e),
        }
    }

    open spec fn sound() -> bool {
        true
    }

    open spec fn representable(v: i16) -> bool {
        true
    }

    fn encode_body(&self, out: &mut Vec<u8>) {
        proof {
            bytes::lemma_bounds();
        }
        push_signed(out, *self as i128, 2);
    }

    fn decode_body(cursor: &mut Cursor<'_>) -> (r: Result<Self, CodecError>) {
        match take_signed(cursor, 2, "i16") {
            Ok(v) => {
                proof {
                    bytes::lemma_bounds();
                }
                Ok(v as i16)
            },
            Err(e) => Err(e),
        }
    }

    proof fn law_round_trip(v: i16, rest: Seq<u8>) {
        bytes::lemma_bounds();
        lemma_sint_round_trip(v as int, 2, rest, "i16"@);
    }

    proof fn law_canonical(bytes: Seq<u8>) {
        bytes::lemma_bounds();
        lemma_sint_canonical(bytes, 2, "i16"@);
    }
}

impl Codec for i32 {
    type Model = i32;

    open spec fn model(&self) -> i32 {
        *self
    }

    open spec fn body(v: i32) -> Seq<u8> {
        bytes::le(wrapped(v as int, 4), 4)
    }

    open spec fn parse(bytes: Seq<u8>) -> Parsed<i32> {
        match parse_sint(bytes, 4, "i32"@) {
            Ok((v, k)) => Ok((v as i32, k)),
            Err(e) => Err(e),
        }
    }

    open spec fn sound() -> bool {
        true
    }

    open spec fn representable(v: i32) -> bool {
        true
    }

    fn encode_body(&self, out: &mut Vec<u8>) {
        proof {
            bytes::lemma_bounds();
        }
        push_signed(out, *self as i128, 4);
    }

    fn decode_body(cursor: &mut Cursor<'_>) -> (r: Result<Self, CodecError>) {
        match take_signed(cursor, 4, "i32") {
            Ok(v) => {
                proof {
                    bytes::lemma_bounds();
                }
                Ok(v as i32)
            },
            Err(e) => Err(e),
        }
    }

    proof fn law_round_trip(v: i32, rest: Seq<u8>) {
        bytes::lemma_bounds();
        lemma_sint_round_trip(v as int, 4, rest, "i32"@);
    }

    proof fn law_canonical(bytes: Seq<u8>) {
        bytes::lemma_bounds();
        lemma_sint_canonical(bytes, 4, "i32"@);
    }
}

impl Codec for i64 {
    type Model = i64;

    open spec fn model(&self) -> i64 {
        *self
    }

    open spec fn body(v: i64) -> Seq<u8> {
        bytes::le(wrapped(v as int, 8), 8)
    }

    open spec fn parse(bytes: Seq<u8>) -> Parsed<i64> {
        match parse_sint(bytes, 8, "i64"@) {
            Ok((v, k)) => Ok((v as i64, k)),
            Err(e) => Err(e),
        }
    }

    open spec fn sound() -> bool {
        true
    }

    open spec fn representable(v: i64) -> bool {
        true
    }

    fn encode_body(&self, out: &mut Vec<u8>) {
        proof {
            bytes::lemma_bounds();
        }
        push_signed(out, *self as i128, 8);
    }

    fn decode_body(cursor: &mut Cursor<'_>) -> (r: Result<Self, CodecError>) {
        match take_signed(cursor, 8, "i64") {
            Ok(v) => {
                proof {
                    bytes::lemma_bounds();
                }
                Ok(v as i64)
            },
            Err(e) => Err(e),
        }
    }

    proof fn law_round_trip(v: i64, rest: Seq<u8>) {
        bytes::lemma_bounds();
        lemma_sint_round_trip(v as int, 8, rest, "i64"@);
    }

    proof fn law_canonical(bytes: Seq<u8>) {
        bytes::lemma_bounds();
        lemma_sint_canonical(bytes, 8, "i64"@);
    }
}

impl Codec for i128 {
    type Model = i128;

    open spec fn model(&self) -> i128 {
        *self
    }

    open spec fn body(v: i128) -> Seq<u8> {
        bytes::le(wrapped(v as int, 16), 16)
    }

    open spec fn parse(bytes: Seq<u8>) -> Parsed<i128> {
        match parse_sint(bytes, 16, "i128"@) {
            Ok((v, k)) => Ok((v as i128, k)),
            Err(e) => Err(e),
        }
    }

    open spec fn sound() -> bool {
        true
    }

    open spec fn representable(v: i128) -> bool {
        true
    }

    fn encode_body(&self, out: &mut Vec<u8>) {
        proof {
            bytes::lemma_bounds();
        }
        push_signed(out, *self as i128, 16);
    }

    fn decode_body(cursor: &mut Cursor<'_>) -> (r: Result<Self, CodecError>) {
        match take_signed(cursor, 16, "i128") {
            Ok(v) => {
                proof {
                    bytes::lemma_bounds();
                }
                Ok(v as i128)
            },
            Err(e) => Err(e),
        }
    }

    proof fn law_round_trip(v: i128, rest: Seq<u8>) {
        bytes::lemma_bounds();
        lemma_sint_round_trip(v as int, 16, rest, "i128"@);
    }

    proof fn law_canonical(bytes: Seq<u8>) {
        bytes::lemma_bounds();
        lemma_sint_canonical(bytes, 16, "i128"@);
    }
}

/// What is said of a number that does not fit the machine's `usize`.
pub open spec fn usize_detail(n: nat) -> Seq<char> {
    text::decimal(n) + " does not fit this platform's `usize`"@
}

/// What is said of a number that does not fit the machine's `isize`.
pub open spec fn isize_detail(n: int) -> Seq<char> {
    text::signed_decimal(n) + " does not fit this platform's `isize`"@
}

/// A `usize` travels as 64 bits, whatever the machine's word is.
impl Codec for usize {
    type Model = usize;

    open spec fn model(&self) -> usize {
        *self
    }

    open spec fn body(v: usize) -> Seq<u8> {
        bytes::le(v as nat, 8)
    }

    open spec fn parse(bytes: Seq<u8>) -> Parsed<usize> {
        match payload::parse_uint(bytes, 8, "usize"@) {
            Ok((n, k)) => if n <= usize::MAX {
                Ok((n as usize, k))
            } else {
                Err(ErrorView::malformed("usize"@, usize_detail(n)))
            },
            Err(e) => Err(e),
        }
    }

    open spec fn sound() -> bool {
        true
    }

    open spec fn representable(v: usize) -> bool {
        true
    }

    fn encode_body(&self, out: &mut Vec<u8>) {
        bytes::push_le(out, *self as u128, 8);
    }

    fn decode_body(cursor: &mut Cursor<'_>) -> (r: Result<Self, CodecError>) {
        match cursor.take_uint(8, "usize") {
            Ok(n) => {
                if n <= usize::MAX as u128 {
                    Ok(n as usize)
                } else {
                    let mut detail = text::decimal_text(n);
                    detail.append(" does not fit this platform's `usize`");
                    Err(CodecError::malformed("usize", detail.as_str()))
                }
            },
            Err(e) => Err(e),
        }
    }

    proof fn law_round_trip(v: usize, rest: Seq<u8>) {
        bytes::lemma_bounds();
        bytes::lemma_le_len(v as nat, 8);
        payload::lemma_uint_round_trip(v as nat, 8, rest, "usize"@);
    }

    proof fn law_canonical(bytes: Seq<u8>) {
        payload::lemma_uint_canonical(bytes, 8, "usize"@);
    }
}

/// An `isize` travels as 64 bits, whatever the machine's word is.
impl Codec for isize {
    type Model = isize;

    open spec fn model(&self) -> isize {
        *self
    }

    open spec fn body(v: isize) -> Seq<u8> {
        bytes::le(wrapped(v as int, 8), 8)
    }

    open spec fn parse(bytes: Seq<u8>) -> Parsed<isize> {
        match parse_sint(bytes, 8, "isize"@) {
            Ok((v, k)) => if isize::MIN <= v <= isize::MAX {
                Ok((v as isize, k))
            } else {
                Err(ErrorView::malformed("isize"@, isize_detail(v)))
            },
            Err(e) => Err(e),
        }
    }

    open spec fn sound() -> bool {
        true
    }

    open spec fn representable(v: isize) -> bool {
        true
    }

    fn encode_body(&self, out: &mut Vec<u8>) {
        proof {
            bytes::lemma_bounds();
        }
        push_signed(out, *self as i128, 8);
    }

    fn decode_body(cursor: &mut Cursor<'_>) -> (r: Result<Self, CodecError>) {
        match take_signed(cursor, 8, "isize") {
            Ok(v) => {
                proof {
                    bytes::lemma_bounds();
                }
                if isize::MIN as i128 <= v && v <= isize::MAX as i128 {
                    Ok(v as isize)
                } else {
                    let mut detail = text::signed_text(v as i64);
                    detail.append(" does not fit this platform's `isize`");
                    Err(CodecError::malformed("isize", detail.as_str()))
                }
            },
            Err(e) => Err(e),
        }
    }

    proof fn law_round_trip(v: isize, rest: Seq<u8>) {
        bytes::lemma_bounds();
        lemma_sint_round_trip(v as int, 8, rest, "isize"@);
    }

    proof fn law_canonical(bytes: Seq<u8>) {
        lemma_sint_canonical(bytes, 8, "isize"@);
    }
}

/// What is said of a byte that is no truth value.
pub open spec fn bool_detail(b: u8) -> Seq<char> {
    "expected 0 or 1, found "@ + text::decimal(b as nat)
}

/// A `bool` is one byte, 0 or 1.
impl Codec for bool {
    type Model = bool;

    open spec fn model(&self) -> bool {
        *self
    }

    open spec fn body(v: bool) -> Seq<u8> {
        seq![
            if v {
                1u8
            } else {
                0u8
            },
        ]
    }

    open spec fn parse(bytes: Seq<u8>) -> Parsed<bool> {
        if bytes.len() == 0 {
            Err(ErrorView::Truncated { context: "bool"@, needed: 1, available: 0 })
        } else if bytes[0] == 0 {
            Ok((false, 1))
        } else if bytes[0] == 1 {
            Ok((true, 1))
        } else {
            Err(ErrorView::malformed("bool"@, bool_detail(bytes[0])))
        }
    }

    open spec fn sound() -> bool {
        true
    }

    open spec fn representable(v: bool) -> bool {
        true
    }

    fn encode_body(&self, out: &mut Vec<u8>) {
        let ghost start = out@;
        if *self {
            out.push(1);
        } else {
            out.push(0);
        }
        assert(out@ =~= start + bool::body(*self));
    }

    fn decode_body(cursor: &mut Cursor<'_>) -> (r: Result<Self, CodecError>) {
        match cursor.take_byte("bool") {
            Ok(b) => {
                if b == 0 {
                    Ok(false)
                } else if b == 1 {
                    Ok(true)
                } else {
                    let mut detail = String::from_str("expected 0 or 1, found ");
                    detail.append(text::decimal_text(b as u128).as_str());
                    Err(CodecError::malformed("bool", detail.as_str()))
                }
            },
            Err(e) => Err(e),
        }
    }

    proof fn law_round_trip(v: bool, rest: Seq<u8>) {
    }

    proof fn law_canonical(bytes: Seq<u8>) {
        assert(bytes.take(1) =~= seq![bytes[0]]);
    }
}

/// The empty value has no bytes.
impl Codec for () {
    type Model = ();

    open spec fn model(&self) -> () {
        ()
    }

    open spec fn body(v: ()) -> Seq<u8> {
        Seq::empty()
    }

    open spec fn parse(bytes: Seq<u8>) -> Parsed<()> {
        Ok(((), 0))
    }

    open spec fn sound() -> bool {
        true
    }

    open spec fn representable(v: ()) -> bool {
        true
    }

    fn encode_body(&self, out: &mut Vec<u8>) {
        assert(out@ + Seq::<u8>::empty() =~= out@);
    }

    fn decode_body(cursor: &mut Cursor<'_>) -> (r: Result<Self, CodecError>) {
        Ok(())
    }

    proof fn law_round_trip(v: (), rest: Seq<u8>) {
    }

    proof fn law_canonical(bytes: Seq<u8>) {
        assert(bytes.take(0) =~= Seq::<u8>::empty());
    }
}

/// A `String` is the length of its encoding, and the encoding.
impl Codec for String {
    type Model = Seq<char>;

    open spec fn model(&self) -> Seq<char> {
        self@
    }

    open spec fn body(v: Seq<char>) -> Seq<u8> {
        payload::text_bytes(v)
    }

    open spec fn parse(bytes: Seq<u8>) -> Parsed<Seq<char>> {
        payload::parse_text(bytes, "String"@)
    }

    open spec fn sound() -> bool {
        true
    }

    open spec fn representable(v: Seq<char>) -> bool {
        encode_utf8(v).len() <= usize::MAX
    }

    fn encode_body(&self, out: &mut Vec<u8>) {
        encode_str(self.as_str(), out);
    }

    fn decode_body(cursor: &mut Cursor<'_>) -> (r: Result<Self, CodecError>) {
        decode_str(cursor, "String")
    }

    proof fn law_round_trip(v: Seq<char>, rest: Seq<u8>) {
        payload::lemma_text_round_trip(v, rest, "String"@);
    }

    proof fn law_canonical(bytes: Seq<u8>) {
        payload::lemma_text_canonical(bytes, "String"@);
    }
}

} // verus!
