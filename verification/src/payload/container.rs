//! Codecs of options and lists.

use super::{encode_len, Codec, CodecError, Cursor, ErrorView, Parsed};
use crate::bytes;
use crate::payload;
use crate::text;
use vstd::layout;
use vstd::prelude::*;

verus! {

/// What is said of a byte that is no tag of an option.
pub open spec fn option_detail(b: u8) -> Seq<char> {
    "expected the tag 0 or 1, found "@ + text::decimal(b as nat)
}

/// An `Option` is a tag, 0 or 1, and the value's bytes where there is one.
impl<T: Codec> Codec for Option<T> {
    type Model = Option<T::Model>;

    open spec fn model(&self) -> Option<T::Model> {
        match self {
            Some(x) => Some(x.model()),
            None => None,
        }
    }

    open spec fn body(v: Option<T::Model>) -> Seq<u8> {
        match v {
            Some(x) => seq![1u8] + T::body(x),
            None => seq![0u8],
        }
    }

    open spec fn parse(bytes: Seq<u8>) -> Parsed<Option<T::Model>> {
        if bytes.len() == 0 {
            Err(ErrorView::Truncated { context: "Option"@, needed: 1, available: 0 })
        } else if bytes[0] == 0 {
            Ok((None, 1))
        } else if bytes[0] == 1 {
            match T::parse(bytes.skip(1)) {
                Ok((x, k)) => Ok((Some(x), 1 + k)),
                Err(e) => Err(e),
            }
        } else {
            Err(ErrorView::malformed("Option"@, option_detail(bytes[0])))
        }
    }

    open spec fn sound() -> bool {
        T::sound()
    }

    open spec fn representable(v: Option<T::Model>) -> bool {
        match v {
            Some(x) => T::representable(x),
            None => true,
        }
    }

    fn encode_body(&self, out: &mut Vec<u8>) {
        let ghost start = out@;
        match self {
            Some(x) => {
                out.push(1);
                x.encode_body(out);
            },
            None => {
                out.push(0);
            },
        }
        assert(out@ =~= start + Self::body(self.model()));
    }

    fn decode_body(cursor: &mut Cursor<'_>) -> (r: Result<Self, CodecError>) {
        let ghost start = cursor@;
        match cursor.take_byte("Option") {
            Ok(b) => {
                assert(cursor@.rest() =~= start.rest().skip(1));
                if b == 0 {
                    Ok(None)
                } else if b == 1 {
                    match T::decode_body(cursor) {
                        Ok(x) => Ok(Some(x)),
                        Err(e) => Err(e),
                    }
                } else {
                    let mut detail = String::from_str("expected the tag 0 or 1, found ");
                    detail.append(text::decimal_text(b as u128).as_str());
                    Err(CodecError::malformed("Option", detail.as_str()))
                }
            },
            Err(e) => Err(e),
        }
    }

    proof fn law_round_trip(v: Option<T::Model>, rest: Seq<u8>) {
        match v {
            Some(x) => {
                T::law_round_trip(x, rest);
                assert((Self::body(v) + rest).skip(1) =~= T::body(x) + rest);
            },
            None => {},
        }
    }

    proof fn law_canonical(bytes: Seq<u8>) {
        if bytes[0] == 1 {
            T::law_canonical(bytes.skip(1));
            let k = T::parse(bytes.skip(1))->Ok_0.1;
            assert(bytes.take(1 + k) =~= seq![1u8] + bytes.skip(1).take(k));
        } else {
            assert(bytes.take(1) =~= seq![0u8]);
        }
    }
}

/// The bytes of values in a row.
pub open spec fn row<T: Codec>(vs: Seq<T::Model>) -> Seq<u8>
    decreases vs.len(),
{
    if vs.len() == 0 {
        Seq::empty()
    } else {
        row::<T>(vs.drop_last()) + T::body(vs.last())
    }
}

/// Reads `n` values in a row.
pub open spec fn parse_row<T: Codec>(bytes: Seq<u8>, n: nat) -> Parsed<Seq<T::Model>>
    decreases n,
{
    if n == 0 {
        Ok((Seq::empty(), 0))
    } else {
        match parse_row::<T>(bytes, (n - 1) as nat) {
            Ok((vs, k)) => match T::parse(bytes.skip(k)) {
                Ok((v, m)) => Ok((vs.push(v), k + m)),
                Err(e) => Err(e),
            },
            Err(e) => Err(e),
        }
    }
}

/// Whether a count is believed: elements that take memory are not more than the bytes
/// that remain.
pub open spec fn plausible<T>(count: nat, remaining: nat) -> bool {
    layout::size_of::<T>() > 0 ==> count <= remaining
}

/// Values that can be read back are read back in a row.
pub proof fn lemma_row_round_trip<T: Codec>(vs: Seq<T::Model>, rest: Seq<u8>)
    requires
        forall|i: int| 0 <= i < vs.len() ==> T::representable(#[trigger] vs[i]),
    ensures
        parse_row::<T>(row::<T>(vs) + rest, vs.len()) == Ok::<_, ErrorView>((vs, row::<T>(vs).len() as int)),
    decreases vs.len(),
{
    if vs.len() > 0 {
        let front = vs.drop_last();
        let last = T::body(vs.last());
        assert forall|i: int| 0 <= i < front.len() implies T::representable(#[trigger] front[i]) by {
            assert(front[i] == vs[i]);
        }
        lemma_row_round_trip::<T>(front, last + rest);
        assert(row::<T>(vs) + rest =~= row::<T>(front) + (last + rest));
        assert((row::<T>(vs) + rest).skip(row::<T>(front).len() as int) =~= last + rest);
        assert(T::representable(vs[vs.len() - 1]));
        T::law_round_trip(vs.last(), rest);
        assert(front.push(vs.last()) =~= vs);
    } else {
        assert(vs =~= Seq::<T::Model>::empty());
    }
}

/// Values that are read in a row are written as the bytes they were read from.
pub proof fn lemma_row_canonical<T: Codec>(bytes: Seq<u8>, n: nat)
    requires
        parse_row::<T>(bytes, n) is Ok,
    ensures
        parse_row::<T>(bytes, n)->Ok_0.0.len() == n,
        0 <= parse_row::<T>(bytes, n)->Ok_0.1 <= bytes.len(),
        bytes.take(parse_row::<T>(bytes, n)->Ok_0.1) == row::<T>(parse_row::<T>(bytes, n)->Ok_0.0),
    decreases n,
{
    if n > 0 {
        lemma_row_canonical::<T>(bytes, (n - 1) as nat);
        let (vs, k) = parse_row::<T>(bytes, (n - 1) as nat)->Ok_0;
        T::law_canonical(bytes.skip(k));
        let (v, m) = T::parse(bytes.skip(k))->Ok_0;
        assert(vs.push(v).drop_last() =~= vs);
        assert(bytes.take(k + m) =~= bytes.take(k) + bytes.skip(k).take(m));
    } else {
        assert(bytes.take(0) =~= Seq::<u8>::empty());
    }
}

/// Values none of which is written as no bytes take at least a byte each.
pub proof fn lemma_row_len<T: Codec>(vs: Seq<T::Model>)
    requires
        forall|v: T::Model| (#[trigger] T::body(v)).len() > 0,
    ensures
        vs.len() <= row::<T>(vs).len(),
    decreases vs.len(),
{
    if vs.len() > 0 {
        lemma_row_len::<T>(vs.drop_last());
        assert(T::body(vs.last()).len() > 0);
    }
}

/// Refuses a count of elements that the remaining input cannot hold. Elements that take
/// no memory are exempt: they may legitimately be written as no bytes.
pub(super) fn check_element_count<T>(count: usize, cursor: &Cursor<'_>, context: &'static str) -> (r: Result<
    (),
    CodecError,
>)
    requires
        cursor.wf(),
    ensures
        match r {
            Ok(_) => plausible::<T>(count as nat, cursor@.rest().len()),
            Err(e) => !plausible::<T>(count as nat, cursor@.rest().len()) && e@ == (ErrorView::Truncated {
                context: context@,
                needed: count as int,
                available: cursor@.rest().len() as int,
            }),
        },
{
    if core::mem::size_of::<T>() > 0 && count > cursor.remaining() {
        return Err(CodecError::Truncated { context, needed: count, available: cursor.remaining() });
    }
    Ok(())
}

/// A `Vec` is the number of its elements, and their bytes in order.
impl<T: Codec> Codec for Vec<T> {
    type Model = Seq<T::Model>;

    open spec fn model(&self) -> Seq<T::Model> {
        self@.map_values(|x: T| x.model())
    }

    open spec fn body(v: Seq<T::Model>) -> Seq<u8> {
        bytes::le(v.len(), 8) + row::<T>(v)
    }

    open spec fn parse(bytes: Seq<u8>) -> Parsed<Seq<T::Model>> {
        match payload::parse_len(bytes, "Vec"@) {
            Ok((n, k)) => {
                let rest = bytes.skip(k);
                if plausible::<T>(n, rest.len()) {
                    match parse_row::<T>(rest, n) {
                        Ok((vs, m)) => Ok((vs, k + m)),
                        Err(e) => Err(e),
                    }
                } else {
                    Err(ErrorView::Truncated { context: "Vec"@, needed: n as int, available: rest.len() as int })
                }
            },
            Err(e) => Err(e),
        }
    }

    open spec fn sound() -> bool {
        &&& T::sound()
        &&& layout::size_of::<T>() > 0 ==> forall|v: T::Model| (#[trigger] T::body(v)).len() > 0
    }

    open spec fn representable(v: Seq<T::Model>) -> bool {
        &&& v.len() <= usize::MAX
        &&& forall|i: int| 0 <= i < v.len() ==> T::representable(#[trigger] v[i])
        &&& plausible::<T>(v.len(), row::<T>(v).len())
    }

    fn encode_body(&self, out: &mut Vec<u8>) {
        let ghost start = out@;
        let ghost all = self.model();
        let n: usize = self.len();
        encode_len(n, out);
        let ghost head = out@;
        let mut i: usize = 0;
        assert(all.take(0) =~= Seq::<T::Model>::empty());
        assert(out@ =~= head + row::<T>(all.take(0)));
        while i < n
            invariant
                n == self.len(),
                i <= n,
                all == self.model(),
                out@ == head + row::<T>(all.take(i as int)),
                T::sound() ==> forall|k: int| 0 <= k < i ==> T::representable(#[trigger] all[k]),
            decreases n - i,
        {
            let ghost before = out@;
            self[i].encode_body(out);
            proof {
                let next = all.take(i + 1);
                assert(next.drop_last() =~= all.take(i as int));
                assert(next.last() == self@[i as int].model());
                assert(out@ =~= head + row::<T>(next));
            }
            i = i + 1;
        }
        proof {
            assert(all.take(n as int) =~= all);
            assert(out@ =~= start + Self::body(all));
            if Self::sound() && layout::size_of::<T>() > 0 {
                lemma_row_len::<T>(all);
            }
        }
    }

    fn decode_body(cursor: &mut Cursor<'_>) -> (r: Result<Self, CodecError>) {
        let ghost start = cursor@;
        let count: usize = match cursor.take_len("Vec") {
            Ok(n) => n,
            Err(e) => return Err(e),
        };
        let ghost rest = start.rest().skip(8);
        let ghost first = cursor@.position;
        proof {
            payload::lemma_uint_canonical(start.rest(), 8, "Vec"@);
            assert(cursor@.rest() =~= rest);
        }
        match check_element_count::<T>(count, cursor, "Vec") {
            Ok(_) => {},
            Err(e) => return Err(e),
        }
        let mut values: Vec<T> = Vec::new();
        let mut i: usize = 0;
        assert(values@.map_values(|x: T| x.model()) =~= Seq::<T::Model>::empty());
        while i < count
            invariant
                i <= count,
                cursor.wf(),
                start == old(cursor)@,
                cursor@.bytes == start.bytes,
                payload::parse_len(start.rest(), "Vec"@) == Ok::<_, ErrorView>((count as nat, 8int)),
                rest == start.rest().skip(8),
                rest == cursor@.bytes.skip(first),
                first == start.position + 8,
                0 <= first <= cursor@.position,
                plausible::<T>(count as nat, rest.len()),
                parse_row::<T>(rest, i as nat) == Ok::<_, ErrorView>(
                    (values@.map_values(|x: T| x.model()), cursor@.position - first),
                ),
            decreases count - i,
        {
            let ghost before = values@.map_values(|x: T| x.model());
            assert(cursor@.rest() =~= rest.skip(cursor@.position - first));
            match T::decode_body(cursor) {
                Ok(x) => {
                    values.push(x);
                    assert(values@.map_values(|x: T| x.model()) =~= before.push(x.model()));
                },
                Err(e) => {
                    proof {
                        lemma_row_fails::<T>(rest, (i + 1) as nat, count as nat);
                    }
                    return Err(e);
                },
            }
            proof {
                lemma_row_canonical::<T>(rest, (i + 1) as nat);
            }
            i = i + 1;
        }
        Ok(values)
    }

    proof fn law_round_trip(v: Seq<T::Model>, rest: Seq<u8>) {
        let tail = row::<T>(v) + rest;
        bytes::lemma_bounds();
        bytes::lemma_le_len(v.len(), 8);
        assert(Self::body(v) + rest =~= bytes::le(v.len(), 8) + tail);
        payload::lemma_uint_round_trip(v.len(), 8, tail, "Vec"@);
        assert((Self::body(v) + rest).skip(8) =~= tail);
        lemma_row_round_trip::<T>(v, rest);
    }

    proof fn law_canonical(bytes: Seq<u8>) {
        payload::lemma_uint_canonical(bytes, 8, "Vec"@);
        let n = payload::parse_len(bytes, "Vec"@)->Ok_0.0;
        lemma_row_canonical::<T>(bytes.skip(8), n);
        let m = parse_row::<T>(bytes.skip(8), n)->Ok_0.1;
        assert(bytes.take(8 + m) =~= bytes.take(8) + bytes.skip(8).take(m));
    }
}

/// A row that fails early fails as it did.
proof fn lemma_row_fails<T: Codec>(bytes: Seq<u8>, i: nat, n: nat)
    requires
        i <= n,
        parse_row::<T>(bytes, i) is Err,
    ensures
        parse_row::<T>(bytes, n) == parse_row::<T>(bytes, i),
    decreases n,
{
    if i < n {
        lemma_row_fails::<T>(bytes, i, (n - 1) as nat);
    }
}

} // verus!
