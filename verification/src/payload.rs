//! The payload codec: how a value becomes bytes, and how bytes refuse to become the
//! wrong value.
//!
//! A [`Codec`] writes and reads the body of a value. A [`Payload`] is a codec with a
//! stable name: its encoding starts with an envelope that records the format version and
//! the name, so that bytes of another type are refused. The encoding is deterministic
//! and canonical: each value has one byte string, and a decoder accepts no other.

pub mod container;
pub mod error;
pub mod layout;
pub mod ordered;
pub mod primitive;
pub mod tuple;

use crate::bytes;
use crate::stable_name::StableName;
use crate::text;
use vstd::prelude::*;
use vstd::utf8::*;

pub use self::error::{CodecError, ErrorView};
pub use self::ordered::{Key, OrderedMap};

verus! {

/// The four bytes that every encoded payload starts with.
pub const MAGIC: [u8; 4] = [0x64, 0x67, 0x72, 0x50];

/// The format version that the envelope carries.
pub const FORMAT_VERSION: u16 = 1;

/// What a read from the front of some bytes comes to: the value and how many bytes it
/// took, or why there is none.
pub type Parsed<V> = Result<(V, int), ErrorView>;

/// Reads exactly `n` bytes.
pub open spec fn parse_take(bytes: Seq<u8>, n: int, context: Seq<char>) -> Parsed<Seq<u8>> {
    if bytes.len() < n {
        Err(ErrorView::Truncated { context, needed: n, available: bytes.len() as int })
    } else {
        Ok((bytes.take(n), n))
    }
}

/// Reads a little-endian number of `width` bytes.
pub open spec fn parse_uint(bytes: Seq<u8>, width: nat, context: Seq<char>) -> Parsed<nat> {
    match parse_take(bytes, width as int, context) {
        Ok((taken, k)) => Ok((bytes::from_le(taken), k)),
        Err(e) => Err(e),
    }
}

/// What is said of a length that the machine cannot hold.
pub open spec fn length_detail(n: nat) -> Seq<char> {
    "length "@ + text::decimal(n) + " exceeds this platform's addressable range"@
}

/// Reads a length or a count.
pub open spec fn parse_len(bytes: Seq<u8>, context: Seq<char>) -> Parsed<nat> {
    match parse_uint(bytes, 8, context) {
        Ok((n, k)) => if n <= usize::MAX {
            Ok((n, k))
        } else {
            Err(ErrorView::malformed(context, length_detail(n)))
        },
        Err(e) => Err(e),
    }
}

/// A cursor's bytes and its place among them.
pub struct CursorView {
    pub bytes: Seq<u8>,
    pub position: int,
}

impl CursorView {
    /// The unread bytes.
    pub open spec fn rest(self) -> Seq<u8> {
        self.bytes.skip(self.position)
    }

    /// The cursor `n` bytes further on.
    pub open spec fn advanced(self, n: int) -> Self {
        CursorView { position: self.position + n, ..self }
    }
}

/// A place in an encoded payload. It hands out pieces of the input and never more than
/// remain.
#[derive(Debug)]
pub struct Cursor<'a> {
    bytes: &'a [u8],
    position: usize,
}

impl<'a> View for Cursor<'a> {
    type V = CursorView;

    closed spec fn view(&self) -> CursorView {
        CursorView { bytes: self.bytes@, position: self.position as int }
    }
}

impl<'a> Cursor<'a> {
    /// The place is among the bytes.
    pub open spec fn wf(&self) -> bool {
        0 <= self@.position <= self@.bytes.len() <= usize::MAX
    }

    /// A cursor at the start of some bytes.
    #[must_use]
    pub fn new(bytes: &'a [u8]) -> (r: Self)
        ensures
            r.wf(),
            r@ == (CursorView { bytes: bytes@, position: 0 }),
    {
        let _n: usize = bytes.len();
        Cursor { bytes, position: 0 }
    }

    /// How many bytes have been consumed.
    #[must_use]
    pub fn position(&self) -> (r: usize)
        ensures
            r == self@.position,
    {
        self.position
    }

    /// How many bytes remain unread.
    #[must_use]
    pub fn remaining(&self) -> (r: usize)
        requires
            self.wf(),
        ensures
            r == self@.rest().len(),
    {
        self.bytes.len() - self.position
    }

    /// Whether every byte has been consumed.
    #[must_use]
    pub fn is_empty(&self) -> (r: bool)
        requires
            self.wf(),
        ensures
            r == (self@.rest().len() == 0),
    {
        self.remaining() == 0
    }

    /// Consumes exactly `n` bytes.
    ///
    /// # Errors
    ///
    /// [`CodecError::Truncated`] if fewer remain; the cursor then stays where it is.
    pub fn take(&mut self, n: usize, context: &'static str) -> (r: Result<&'a [u8], CodecError>)
        requires
            old(self).wf(),
        ensures
            final(self).wf(),
            match r {
                Ok(taken) => parse_take(old(self)@.rest(), n as int, context@) == Ok::<_, ErrorView>(
                    (taken@, n as int),
                ) && final(self)@ == old(self)@.advanced(n as int),
                Err(e) => parse_take(old(self)@.rest(), n as int, context@) == Err::<(Seq<u8>, int), _>(e@)
                    && final(self)@ == old(self)@,
            },
    {
        if self.remaining() < n {
            return Err(CodecError::Truncated { context, needed: n, available: self.remaining() });
        }
        let taken = vstd::slice::slice_subrange(self.bytes, self.position, self.position + n);
        assert(taken@ =~= self@.rest().take(n as int));
        self.position = self.position + n;
        Ok(taken)
    }

    /// Consumes exactly one byte.
    ///
    /// # Errors
    ///
    /// [`CodecError::Truncated`] if none remains.
    pub fn take_byte(&mut self, context: &'static str) -> (r: Result<u8, CodecError>)
        requires
            old(self).wf(),
        ensures
            final(self).wf(),
            match r {
                Ok(b) => old(self)@.rest().len() > 0 && b == old(self)@.rest()[0] && final(self)@ == old(self)@.advanced(1),
                Err(e) => e@ == (ErrorView::Truncated { context: context@, needed: 1, available: 0 }) && old(self)@.rest().len() == 0 && final(self)@ == old(self)@,
            },
    {
        match self.take(1, context) {
            Ok(taken) => Ok(taken[0]),
            Err(e) => Err(e),
        }
    }

    /// Consumes a little-endian number of `width` bytes.
    fn take_uint(&mut self, width: usize, context: &'static str) -> (r: Result<u128, CodecError>)
        requires
            old(self).wf(),
            width <= 16,
        ensures
            final(self).wf(),
            match r {
                Ok(n) => parse_uint(old(self)@.rest(), width as nat, context@) == Ok::<_, ErrorView>(
                    (n as nat, width as int),
                ) && final(self)@ == old(self)@.advanced(width as int),
                Err(e) => parse_uint(old(self)@.rest(), width as nat, context@) == Err::<(nat, int), _>(e@) && final(self)@ == old(self)@,
            },
    {
        match self.take(width, context) {
            Ok(taken) => Ok(bytes::read_le(taken)),
            Err(e) => Err(e),
        }
    }

    /// Consumes a length or a count.
    ///
    /// # Errors
    ///
    /// [`CodecError::Truncated`] if it is not there, in which case the cursor stays where
    /// it is, and [`CodecError::Malformed`] if the machine cannot hold it, in which case it
    /// has been consumed.
    pub fn take_len(&mut self, context: &'static str) -> (r: Result<usize, CodecError>)
        requires
            old(self).wf(),
        ensures
            final(self).wf(),
            final(self)@.bytes == old(self)@.bytes,
            match r {
                Ok(n) => parse_len(old(self)@.rest(), context@) == Ok::<_, ErrorView>((n as nat, 8int)) && final(self)@
                    == old(self)@.advanced(8),
                Err(e) => parse_len(old(self)@.rest(), context@) == Err::<(nat, int), _>(e@) && final(self)@ == (
                if e@ is Truncated {
                    old(self)@
                } else {
                    old(self)@.advanced(8)
                }),
            },
    {
        match self.take_uint(8, context) {
            Ok(n) => {
                if n <= usize::MAX as u128 {
                    Ok(n as usize)
                } else {
                    let mut detail = String::from_str("length ");
                    detail.append(text::decimal_text(n).as_str());
                    detail.append(" exceeds this platform's addressable range");
                    Err(CodecError::malformed(context, detail.as_str()))
                }
            },
            Err(e) => Err(e),
        }
    }
}

/// The body codec: how a value's bytes are written and read back, without an envelope.
///
/// An implementation says what its values stand for ([`model`](Codec::model)), which
/// bytes a value is written as, and what reading from the front of some bytes comes to;
/// and it proves that the two agree.
pub trait Codec: Sized {
    /// What the values stand for.
    type Model;

    /// What a value stands for.
    spec fn model(&self) -> Self::Model;

    /// The bytes of a value.
    spec fn body(v: Self::Model) -> Seq<u8>;

    /// What reading a value from the front of some bytes comes to.
    spec fn parse(bytes: Seq<u8>) -> Parsed<Self::Model>;

    /// Whether every value can be read back. It can unless the type holds a list of
    /// elements that take memory and yet may be written as no bytes at all: a count is
    /// not believed beyond the bytes that remain.
    spec fn sound() -> bool;

    /// Whether a value can be read back: its lengths fit the machine, and no count in it
    /// exceeds the bytes that follow.
    spec fn representable(v: Self::Model) -> bool;

    /// Appends the value's bytes.
    fn encode_body(&self, out: &mut Vec<u8>)
        ensures
            final(out)@ == old(out)@ + Self::body(self.model()),
            Self::sound() ==> Self::representable(self.model()),
    ;

    /// Reads one value.
    ///
    /// # Errors
    ///
    /// The refusal that [`parse`](Codec::parse) gives.
    fn decode_body(cursor: &mut Cursor<'_>) -> (r: Result<Self, CodecError>)
        requires
            old(cursor).wf(),
        ensures
            final(cursor).wf(),
            final(cursor)@.bytes == old(cursor)@.bytes,
            match r {
                Ok(v) => Self::parse(old(cursor)@.rest()) == Ok::<_, ErrorView>(
                    (v.model(), final(cursor)@.position - old(cursor)@.position),
                ),
                Err(e) => Self::parse(old(cursor)@.rest()) == Err::<(Self::Model, int), _>(e@),
            },
    ;

    /// A value that can be read back is read back from its bytes, whatever follows.
    proof fn law_round_trip(v: Self::Model, rest: Seq<u8>)
        requires
            Self::representable(v),
        ensures
            Self::parse(Self::body(v) + rest) == Ok::<_, ErrorView>((v, Self::body(v).len() as int)),
    ;

    /// What is read is written as the bytes it was read from.
    proof fn law_canonical(bytes: Seq<u8>)
        requires
            Self::parse(bytes) is Ok,
        ensures
            0 <= Self::parse(bytes)->Ok_0.1 <= bytes.len(),
            bytes.take(Self::parse(bytes)->Ok_0.1) == Self::body(Self::parse(bytes)->Ok_0.0),
    ;
}

/// The bytes of a text: the length of its encoding, and the encoding.
pub open spec fn text_bytes(s: Seq<char>) -> Seq<u8> {
    bytes::le(encode_utf8(s).len(), 8) + encode_utf8(s)
}

/// Reads a text.
pub open spec fn parse_text(bytes: Seq<u8>, context: Seq<char>) -> Parsed<Seq<char>> {
    match parse_len(bytes, context) {
        Ok((n, k)) => match parse_take(bytes.skip(k), n as int, context) {
            Ok((taken, m)) => if valid_utf8(taken) {
                Ok((decode_utf8(taken), k + m))
            } else {
                Err(
                    ErrorView::Malformed {
                        context,
                        detail: "the bytes are not valid UTF-8"@,
                        source: Some(text::utf8_fault(taken)),
                    },
                )
            },
            Err(e) => Err(e),
        },
        Err(e) => Err(e),
    }
}

/// A number is read back.
pub proof fn lemma_uint_round_trip(n: nat, width: nat, rest: Seq<u8>, context: Seq<char>)
    requires
        n < bytes::bound(width),
    ensures
        parse_uint(bytes::le(n, width) + rest, width, context) == Ok::<_, ErrorView>((n, width as int)),
{
    bytes::lemma_le_len(n, width);
    bytes::lemma_le_round_trip(n, width);
    assert((bytes::le(n, width) + rest).take(width as int) =~= bytes::le(n, width));
}

/// A number that is read is written as the bytes it was read from.
pub proof fn lemma_uint_canonical(bytes: Seq<u8>, width: nat, context: Seq<char>)
    requires
        parse_uint(bytes, width, context) is Ok,
    ensures
        parse_uint(bytes, width, context)->Ok_0.1 == width,
        width <= bytes.len(),
        parse_uint(bytes, width, context)->Ok_0.0 < bytes::bound(width),
        bytes.take(width as int) == bytes::le(parse_uint(bytes, width, context)->Ok_0.0, width),
{
    bytes::lemma_from_le_round_trip(bytes.take(width as int));
}

/// A text whose length fits the machine is read back.
pub proof fn lemma_text_round_trip(s: Seq<char>, rest: Seq<u8>, context: Seq<char>)
    requires
        encode_utf8(s).len() <= usize::MAX,
    ensures
        parse_text(text_bytes(s) + rest, context) == Ok::<_, ErrorView>((s, text_bytes(s).len() as int)),
{
    broadcast use encode_utf8_decode_utf8, encode_utf8_valid_utf8;

    let n = encode_utf8(s).len();
    let all = text_bytes(s) + rest;
    bytes::lemma_bounds();
    bytes::lemma_le_len(n, 8);
    assert(all =~= bytes::le(n, 8) + (encode_utf8(s) + rest));
    lemma_uint_round_trip(n, 8, encode_utf8(s) + rest, context);
    assert(all.skip(8) =~= encode_utf8(s) + rest);
    assert((encode_utf8(s) + rest).take(n as int) =~= encode_utf8(s));
}

/// A text that is read is written as the bytes it was read from.
pub proof fn lemma_text_canonical(bytes: Seq<u8>, context: Seq<char>)
    requires
        parse_text(bytes, context) is Ok,
    ensures
        0 <= parse_text(bytes, context)->Ok_0.1 <= bytes.len(),
        bytes.take(parse_text(bytes, context)->Ok_0.1) == text_bytes(parse_text(bytes, context)->Ok_0.0),
{
    broadcast use decode_utf8_encode_utf8;

    lemma_uint_canonical(bytes, 8, context);
    let n = parse_len(bytes, context)->Ok_0.0;
    let taken = bytes.skip(8).take(n as int);
    assert(encode_utf8(decode_utf8(taken)) == taken);
    assert(bytes.take((8 + n) as int) =~= bytes.take(8) + taken);
}

/// Appends a length or a count.
fn encode_len(len: usize, out: &mut Vec<u8>)
    ensures
        final(out)@ == old(out)@ + bytes::le(len as nat, 8),
{
    bytes::push_le(out, len as u128, 8);
}

/// Appends a text: its length, and its encoding.
fn encode_str(value: &str, out: &mut Vec<u8>)
    ensures
        final(out)@ == old(out)@ + text_bytes(value@),
        encode_utf8(value@).len() <= usize::MAX,
{
    let ghost start = out@;
    let encoded: &[u8] = value.as_bytes();
    let len: usize = encoded.len();
    encode_len(len, out);
    bytes::push_bytes(out, encoded);
    assert(out@ =~= start + text_bytes(value@));
}

/// Reads a text.
fn decode_str(cursor: &mut Cursor<'_>, context: &'static str) -> (r: Result<String, CodecError>)
    requires
        old(cursor).wf(),
    ensures
        final(cursor).wf(),
        final(cursor)@.bytes == old(cursor)@.bytes,
        match r {
            Ok(s) => parse_text(old(cursor)@.rest(), context@) == Ok::<_, ErrorView>(
                (s@, final(cursor)@.position - old(cursor)@.position),
            ),
            Err(e) => parse_text(old(cursor)@.rest(), context@) == Err::<(Seq<char>, int), _>(e@),
        },
{
    let ghost start = cursor@;
    match cursor.take_len(context) {
        Ok(len) => {
            assert(cursor@.rest() =~= start.rest().skip(8)) by {
                lemma_uint_canonical(start.rest(), 8, context@);
            }
            match cursor.take(len, context) {
                Ok(taken) => match text::text_from_utf8(taken) {
                    Ok(s) => {
                        proof {
                            encode_utf8_decode_utf8(s@);
                        }
                        Ok(s)
                    },
                    Err(fault) => Err(
                        CodecError::malformed_from(context, "the bytes are not valid UTF-8", fault.as_str()),
                    ),
                },
                Err(e) => Err(e),
            }
        },
        Err(e) => Err(e),
    }
}

/// The encoding of a payload: the magic bytes, the format version, the stable name, and
/// the body.
pub open spec fn envelope<T: Codec + StableName>(v: T::Model) -> Seq<u8> {
    MAGIC@ + bytes::le(FORMAT_VERSION as nat, 2) + text_bytes(T::STABLE_NAME@) + T::body(v)
}

/// What is said of bytes that start with other than the magic.
pub open spec fn magic_detail() -> Seq<char> {
    "these bytes are not an encoded dagr payload (wrong leading magic)"@
}

/// What decoding a whole payload comes to.
pub open spec fn opened<T: Codec + StableName>(bytes: Seq<u8>) -> Result<T::Model, ErrorView> {
    let name = T::STABLE_NAME@;
    match parse_take(bytes, 4, name) {
        Err(e) => Err(e),
        Ok((magic, _)) => if magic != MAGIC@ {
            Err(ErrorView::malformed(name, magic_detail()))
        } else {
            match parse_uint(bytes.skip(4), 2, name) {
                Err(e) => Err(e),
                Ok((version, _)) => if version != FORMAT_VERSION {
                    Err(ErrorView::UnsupportedVersion { expected: FORMAT_VERSION, found: version as u16 })
                } else {
                    match parse_text(bytes.skip(6), name) {
                        Err(e) => Err(e),
                        Ok((found, k)) => if found != name {
                            Err(ErrorView::TypeMismatch { expected: name, found })
                        } else {
                            match T::parse(bytes.skip(6 + k)) {
                                Err(e) => Err(e),
                                Ok((v, m)) => if 6 + k + m < bytes.len() {
                                    Err(
                                        ErrorView::TrailingGarbage {
                                            consumed: 6 + k + m,
                                            total: bytes.len() as int,
                                        },
                                    )
                                } else {
                                    Ok(v)
                                },
                            }
                        },
                    }
                },
            }
        },
    }
}

/// A value that can cross a process boundary as bytes: a [`Codec`] with a stable name.
/// Every such type is a payload, so the envelope is the same for all.
pub trait Payload: Codec + StableName {
    /// Appends the value's self-describing encoding.
    fn encode(&self, out: &mut Vec<u8>)
        ensures
            final(out)@ == old(out)@ + envelope::<Self>(self.model()),
            encode_utf8(Self::STABLE_NAME@).len() <= usize::MAX,
            Self::sound() ==> Self::representable(self.model()),
    ;

    /// The value's self-describing encoding.
    #[must_use]
    fn encode_to_vec(&self) -> (r: Vec<u8>)
        ensures
            r@ == envelope::<Self>(self.model()),
            encode_utf8(Self::STABLE_NAME@).len() <= usize::MAX,
            Self::sound() ==> Self::representable(self.model()),
    ;

    /// Decodes a value from a whole encoded payload.
    ///
    /// # Errors
    ///
    /// The refusal that [`opened`] gives.
    fn decode(bytes: &[u8]) -> (r: Result<Self, CodecError>)
        ensures
            match r {
                Ok(v) => opened::<Self>(bytes@) == Ok::<_, ErrorView>(v.model()),
                Err(e) => opened::<Self>(bytes@) == Err::<Self::Model, _>(e@),
            },
    ;
}

impl<T: Codec + StableName> Payload for T {
    fn encode(&self, out: &mut Vec<u8>) {
        let ghost start = out@;
        bytes::push_bytes(out, MAGIC.as_slice());
        bytes::push_le(out, FORMAT_VERSION as u128, 2);
        encode_str(T::STABLE_NAME, out);
        self.encode_body(out);
        assert(out@ =~= start + envelope::<T>(self.model()));
    }

    fn encode_to_vec(&self) -> (r: Vec<u8>) {
        let mut out: Vec<u8> = Vec::new();
        self.encode(&mut out);
        assert(out@ =~= envelope::<T>(self.model()));
        out
    }

    fn decode(bytes: &[u8]) -> (r: Result<Self, CodecError>) {
        let mut cursor = Cursor::new(bytes);
        assert(cursor@.rest() =~= bytes@);
        let magic = match cursor.take(4, T::STABLE_NAME) {
            Ok(taken) => taken,
            Err(e) => return Err(e),
        };
        if !bytes::same_bytes(magic, MAGIC.as_slice()) {
            return Err(
                CodecError::malformed(
                    T::STABLE_NAME,
                    "these bytes are not an encoded dagr payload (wrong leading magic)",
                ),
            );
        }
        assert(cursor@.rest() =~= bytes@.skip(4));
        let version: u128 = match cursor.take_uint(2, T::STABLE_NAME) {
            Ok(n) => n,
            Err(e) => return Err(e),
        };
        proof {
            lemma_uint_canonical(bytes@.skip(4), 2, T::STABLE_NAME@);
            bytes::lemma_bounds();
        }
        if version != FORMAT_VERSION as u128 {
            return Err(CodecError::UnsupportedVersion { expected: FORMAT_VERSION, found: version as u16 });
        }
        assert(cursor@.rest() =~= bytes@.skip(6));
        let name = match decode_str(&mut cursor, T::STABLE_NAME) {
            Ok(s) => s,
            Err(e) => return Err(e),
        };
        if !text::same_text(name.as_str(), T::STABLE_NAME) {
            return Err(CodecError::TypeMismatch { expected: T::STABLE_NAME, found: name });
        }
        let value = match T::decode_body(&mut cursor) {
            Ok(v) => v,
            Err(e) => return Err(e),
        };
        if !cursor.is_empty() {
            return Err(CodecError::TrailingGarbage { consumed: cursor.position(), total: bytes.len() });
        }
        Ok(value)
    }
}

/// A payload that can be read back is read back from its encoding.
pub proof fn law_payload_round_trip<T: Codec + StableName>(v: T::Model)
    requires
        T::representable(v),
        encode_utf8(T::STABLE_NAME@).len() <= usize::MAX,
    ensures
        opened::<T>(envelope::<T>(v)) == Ok::<_, ErrorView>(v),
{
    let name = T::STABLE_NAME@;
    let all = envelope::<T>(v);
    let no: Seq<u8> = Seq::empty();
    lemma_envelope_parts::<T>(v);
    lemma_text_round_trip(name, T::body(v), name);
    let k = text_bytes(name).len() as int;
    assert(all.skip(6 + k) =~= T::body(v) + no);
    T::law_round_trip(v, no);
    assert(T::body(v) + no =~= T::body(v));
}

/// What stands where in an envelope.
proof fn lemma_envelope_parts<T: Codec + StableName>(v: T::Model)
    ensures
        envelope::<T>(v).take(4) == MAGIC@,
        MAGIC@.len() == 4,
        forall|context: Seq<char>| #[trigger]
            parse_uint(envelope::<T>(v).skip(4), 2, context) == Ok::<_, ErrorView>((FORMAT_VERSION as nat, 2int)),
        envelope::<T>(v).skip(6) == text_bytes(T::STABLE_NAME@) + T::body(v),
        envelope::<T>(v).len() == 6 + text_bytes(T::STABLE_NAME@).len() + T::body(v).len(),
{
    let all = envelope::<T>(v);
    let tail = text_bytes(T::STABLE_NAME@) + T::body(v);
    bytes::lemma_bounds();
    bytes::lemma_le_len(FORMAT_VERSION as nat, 2);
    assert(all.take(4) =~= MAGIC@);
    assert(all.skip(4) =~= bytes::le(FORMAT_VERSION as nat, 2) + tail);
    assert(all.skip(6) =~= tail);
    assert forall|context: Seq<char>| #[trigger] parse_uint(all.skip(4), 2, context) == Ok::<_, ErrorView>(
        (FORMAT_VERSION as nat, 2int),
    ) by {
        lemma_uint_round_trip(FORMAT_VERSION as nat, 2, tail, context);
    }
}

/// Bytes that decode are the encoding of what they decode to: each value has one byte
/// string.
pub proof fn law_payload_canonical<T: Codec + StableName>(bytes: Seq<u8>)
    requires
        opened::<T>(bytes) is Ok,
    ensures
        bytes == envelope::<T>(opened::<T>(bytes)->Ok_0),
{
    let name = T::STABLE_NAME@;
    lemma_uint_canonical(bytes.skip(4), 2, name);
    lemma_text_canonical(bytes.skip(6), name);
    let k = parse_text(bytes.skip(6), name)->Ok_0.1;
    T::law_canonical(bytes.skip(6 + k));
    let (v, m) = T::parse(bytes.skip(6 + k))->Ok_0;
    assert(bytes.skip(6).take(k) == text_bytes(name));
    assert(bytes.skip(6 + k).take(m) == T::body(v));
    assert(bytes =~= bytes.take(4) + bytes.skip(4).take(2) + bytes.skip(6).take(k) + bytes.skip(6 + k).take(m));
}

/// A payload of another type is refused, whatever its bytes, and both names are told.
pub proof fn law_other_type_is_refused<A: Codec + StableName, B: Codec + StableName>(v: A::Model)
    requires
        A::STABLE_NAME@ != B::STABLE_NAME@,
        encode_utf8(A::STABLE_NAME@).len() <= usize::MAX,
    ensures
        opened::<B>(envelope::<A>(v)) == Err::<B::Model, ErrorView>(
            ErrorView::TypeMismatch { expected: B::STABLE_NAME@, found: A::STABLE_NAME@ },
        ),
{
    lemma_envelope_parts::<A>(v);
    lemma_text_round_trip(A::STABLE_NAME@, A::body(v), B::STABLE_NAME@);
}

/// Bytes after a whole payload are refused.
pub proof fn law_trailing_bytes_are_refused<T: Codec + StableName>(v: T::Model, extra: Seq<u8>)
    requires
        T::representable(v),
        encode_utf8(T::STABLE_NAME@).len() <= usize::MAX,
        extra.len() > 0,
    ensures
        opened::<T>(envelope::<T>(v) + extra) == Err::<T::Model, ErrorView>(
            ErrorView::TrailingGarbage {
                consumed: envelope::<T>(v).len() as int,
                total: (envelope::<T>(v).len() + extra.len()) as int,
            },
        ),
{
    let name = T::STABLE_NAME@;
    let all = envelope::<T>(v) + extra;
    let tail = T::body(v) + extra;
    bytes::lemma_bounds();
    lemma_envelope_parts::<T>(v);
    bytes::lemma_le_len(FORMAT_VERSION as nat, 2);
    assert(all.take(4) =~= envelope::<T>(v).take(4));
    assert(all.skip(4) =~= bytes::le(FORMAT_VERSION as nat, 2) + (text_bytes(name) + tail));
    lemma_uint_round_trip(FORMAT_VERSION as nat, 2, text_bytes(name) + tail, name);
    assert(all.skip(6) =~= text_bytes(name) + tail);
    lemma_text_round_trip(name, tail, name);
    let k = text_bytes(name).len() as int;
    assert(all.skip(6 + k) =~= tail);
    T::law_round_trip(v, extra);
}

/// Two values with one encoding are one value.
pub proof fn law_encoding_is_injective<T: Codec>(a: T::Model, b: T::Model)
    requires
        T::representable(a),
        T::representable(b),
        T::body(a) == T::body(b),
    ensures
        a == b,
{
    T::law_round_trip(a, Seq::empty());
    T::law_round_trip(b, Seq::empty());
}

/// Encodes a value and decodes it straight back.
///
/// # Errors
///
/// Whatever [`Payload::decode`] refuses with. It does not refuse a value of a type whose
/// values can all be read back.
pub fn round_trip<T: Payload>(value: &T) -> (r: Result<T, CodecError>)
    ensures
        match r {
            Ok(v) => opened::<T>(envelope::<T>(value.model())) == Ok::<_, ErrorView>(v.model()),
            Err(e) => opened::<T>(envelope::<T>(value.model())) == Err::<T::Model, _>(e@),
        },
        T::sound() ==> (r matches Ok(v) && v.model() == value.model()),
{
    let mut out: Vec<u8> = Vec::new();
    value.encode(&mut out);
    assert(out@ =~= envelope::<T>(value.model()));
    proof {
        if T::sound() {
            law_payload_round_trip::<T>(value.model());
        }
    }
    T::decode(out.as_slice())
}

} // verus!
