//! How values are laid out as bytes, and which bytes are refused.

use super::{Codec, ErrorView, Key, OrderedMap, Parsed};
use crate::bytes;
use crate::payload;
use crate::stable_name::StableName;
use crate::text;
use vstd::arithmetic::power::pow;
use vstd::prelude::*;
use vstd::utf8::*;

verus! {

/// A number of a width has a byte for each eight bits, the lowest first.
pub proof fn law_a_number_is_its_bytes_lowest_first(n: nat, width: nat, i: int)
    ensures
        bytes::le(n, width).len() == width,
        0 <= i < width ==> bytes::le(n, width)[i] as int == (n as int / pow(256, i as nat)) % 256,
    decreases width,
{
    bytes::lemma_le_len(n, width);
    reveal(pow);
    if 0 <= i < width {
        if i == 0 {
            assert(pow(256, 0) == 1);
        } else {
            let j = (i - 1) as nat;
            law_a_number_is_its_bytes_lowest_first(n / 256, (width - 1) as nat, i - 1);
            vstd::arithmetic::power::lemma_pow_positive(256, j);
            assert(pow(256, i as nat) == 256 * pow(256, j));
            vstd::arithmetic::div_mod::lemma_div_denominator(n as int, 256, pow(256, j));
            assert(bytes::le(n, width)[i] == bytes::le(n / 256, (width - 1) as nat)[i - 1]);
        }
    }
}

/// Whole numbers without a sign take the bytes of their type; the machine's own take eight.
pub proof fn law_unsigned_numbers_have_their_width(a: u8, b: u16, c: u32, d: u64, e: u128, f: usize)
    ensures
        <u8 as Codec>::body(a) == bytes::le(a as nat, 1),
        <u16 as Codec>::body(b) == bytes::le(b as nat, 2),
        <u32 as Codec>::body(c) == bytes::le(c as nat, 4),
        <u64 as Codec>::body(d) == bytes::le(d as nat, 8),
        <u128 as Codec>::body(e) == bytes::le(e as nat, 16),
        <usize as Codec>::body(f) == bytes::le(f as nat, 8),
{
}

/// Whole numbers with a sign take the bytes of their type, as the number without a sign
/// that they leave over the type's size; the machine's own take eight.
pub proof fn law_signed_numbers_have_their_width(a: i8, b: i16, c: i32, d: i64, e: i128, f: isize)
    ensures
        <i8 as Codec>::body(a) == bytes::le((a as int % 0x100) as nat, 1),
        <i16 as Codec>::body(b) == bytes::le((b as int % 0x1_0000) as nat, 2),
        <i32 as Codec>::body(c) == bytes::le((c as int % 0x1_0000_0000) as nat, 4),
        <i64 as Codec>::body(d) == bytes::le((d as int % 0x1_0000_0000_0000_0000) as nat, 8),
        <i128 as Codec>::body(e) == bytes::le((e as int % 0x1_0000_0000_0000_0000_0000_0000_0000_0000int) as nat, 16),
        <isize as Codec>::body(f) == bytes::le((f as int % 0x1_0000_0000_0000_0000) as nat, 8),
{
    bytes::lemma_bounds();
}

/// A truth value is one byte, one or zero; the empty value takes none; an option is a zero,
/// or a one and its value; a text is the length of its encoding in eight bytes and the
/// encoding.
pub proof fn law_small_values_are_laid_out<T: Codec>(value: T::Model, s: Seq<char>)
    ensures
        <bool as Codec>::body(true) == seq![1u8],
        <bool as Codec>::body(false) == seq![0u8],
        <() as Codec>::body(()) == Seq::<u8>::empty(),
        <Option<T> as Codec>::body(None) == seq![0u8],
        <Option<T> as Codec>::body(Some(value)) == seq![1u8] + T::body(value),
        <String as Codec>::body(s) == bytes::le(encode_utf8(s).len(), 8) + encode_utf8(s),
{
}

/// Values in a row are their number in eight bytes and one after the other; so are the
/// entries of a map, each its key and its value.
pub proof fn law_rows_are_laid_out<T: Codec, K: Key, V: Codec>(
    values: Seq<T::Model>,
    value: T::Model,
    entries: Seq<(K::Model, V::Model)>,
    key: K::Model,
    held: V::Model,
)
    ensures
        <Vec<T> as Codec>::body(Seq::empty()) == bytes::le(0, 8),
        <Vec<T> as Codec>::body(values.push(value)).skip(8) == <Vec<T> as Codec>::body(values).skip(8) + T::body(value),
        <Vec<T> as Codec>::body(values).take(8) == bytes::le(values.len(), 8),
        <OrderedMap<K, V> as Codec>::body(Seq::empty()) == bytes::le(0, 8),
        <OrderedMap<K, V> as Codec>::body(entries.push((key, held))).skip(8) == <OrderedMap<K, V> as Codec>::body(
            entries,
        ).skip(8) + K::body(key) + V::body(held),
        <OrderedMap<K, V> as Codec>::body(entries).take(8) == bytes::le(entries.len(), 8),
{
    let more = values.push(value);
    bytes::lemma_le_len(0, 8);
    bytes::lemma_le_len(values.len(), 8);
    bytes::lemma_le_len(more.len(), 8);
    assert(more.drop_last() =~= values);
    let row = payload::container::row::<T>(values);
    assert(<Vec<T> as Codec>::body(Seq::empty()) =~= bytes::le(0, 8));
    assert(<Vec<T> as Codec>::body(values).skip(8) =~= row);
    assert(<Vec<T> as Codec>::body(more).skip(8) =~= row + T::body(value));
    assert(<Vec<T> as Codec>::body(values).take(8) =~= bytes::le(values.len(), 8));
    let grown = entries.push((key, held));
    bytes::lemma_le_len(entries.len(), 8);
    bytes::lemma_le_len(grown.len(), 8);
    assert(grown.drop_last() =~= entries);
    let pairs = payload::container::row::<(K, V)>(entries);
    assert(<OrderedMap<K, V> as Codec>::body(Seq::empty()) =~= bytes::le(0, 8));
    assert(<OrderedMap<K, V> as Codec>::body(entries).skip(8) =~= pairs);
    assert(<OrderedMap<K, V> as Codec>::body(grown).skip(8) =~= pairs + K::body(key) + V::body(held));
    assert(<OrderedMap<K, V> as Codec>::body(entries).take(8) =~= bytes::le(entries.len(), 8));
}

/// Values side by side are laid out one after the other.
pub proof fn law_values_side_by_side_are_laid_out<A, B, C, D, E, F, G, H>(
    a: A::Model,
    b: B::Model,
    c: C::Model,
    d: D::Model,
    e: E::Model,
    f: F::Model,
    g: G::Model,
    h: H::Model,
) where A: Codec, B: Codec, C: Codec, D: Codec, E: Codec, F: Codec, G: Codec, H: Codec
    ensures
        <(A,) as Codec>::body((a,)) == A::body(a),
        <(A, B) as Codec>::body((a, b)) == A::body(a) + B::body(b),
        <(A, B, C) as Codec>::body((a, b, c)) == A::body(a) + B::body(b) + C::body(c),
        <(A, B, C, D) as Codec>::body((a, b, c, d)) == A::body(a) + B::body(b) + C::body(c) + D::body(d),
        <(A, B, C, D, E) as Codec>::body((a, b, c, d, e)) == A::body(a) + B::body(b) + C::body(c) + D::body(d) + E::body(
            e,
        ),
        <(A, B, C, D, E, F) as Codec>::body((a, b, c, d, e, f)) == A::body(a) + B::body(b) + C::body(c) + D::body(d)
            + E::body(e) + F::body(f),
        <(A, B, C, D, E, F, G) as Codec>::body((a, b, c, d, e, f, g)) == A::body(a) + B::body(b) + C::body(c) + D::body(
            d,
        ) + E::body(e) + F::body(f) + G::body(g),
        <(A, B, C, D, E, F, G, H) as Codec>::body((a, b, c, d, e, f, g, h)) == A::body(a) + B::body(b) + C::body(c)
            + D::body(d) + E::body(e) + F::body(f) + G::body(g) + H::body(h),
{
}

/// A payload begins with four fixed bytes and the version, one, in two; next come the
/// stable name as a text and the value.
pub proof fn law_a_payload_names_its_type<T: Codec + StableName>(v: T::Model)
    ensures
        payload::envelope::<T>(v) == seq![0x64u8, 0x67, 0x72, 0x50, 1, 0] + (bytes::le(
            encode_utf8(T::STABLE_NAME@).len(),
            8,
        ) + encode_utf8(T::STABLE_NAME@)) + T::body(v),
{
    reveal_with_fuel(bytes::le, 3);
    assert(bytes::le(1, 2) =~= seq![1u8, 0]);
    assert(payload::MAGIC@ =~= seq![0x64u8, 0x67, 0x72, 0x50]);
    assert(payload::MAGIC@ + bytes::le(1, 2) =~= seq![0x64u8, 0x67, 0x72, 0x50, 1, 0]);
}

/// Bytes that are too few for the fixed ones or the version, begin otherwise, or carry
/// another version, are refused for that, whatever follows.
pub proof fn law_foreign_bytes_are_refused<T: Codec + StableName>(given: Seq<u8>)
    ensures
        ({
            let said = payload::opened::<T>(given);
            let name = T::STABLE_NAME@;
            let ours = given.len() >= 4 && given[0] == 0x64 && given[1] == 0x67 && given[2] == 0x72 && given[3] == 0x50;
            &&& given.len() < 4 ==> said == Err::<T::Model, ErrorView>(
                ErrorView::Truncated { context: name, needed: 4, available: given.len() as int },
            )
            &&& given.len() >= 4 && !ours ==> said == Err::<T::Model, ErrorView>(
                ErrorView::Malformed {
                    context: name,
                    detail: "these bytes are not an encoded dagr payload (wrong leading magic)"@,
                    source: None,
                },
            )
            &&& ours && given.len() < 6 ==> said == Err::<T::Model, ErrorView>(
                ErrorView::Truncated { context: name, needed: 2, available: given.len() - 4 },
            )
            &&& ours && given.len() >= 6 && given[4] + 256 * given[5] != 1 ==> said == Err::<T::Model, ErrorView>(
                ErrorView::UnsupportedVersion { expected: 1, found: (given[4] + 256 * given[5]) as u16 },
            )
        }),
{
    if given.len() >= 4 {
        let magic = payload::MAGIC@;
        assert(magic =~= seq![0x64u8, 0x67, 0x72, 0x50]);
        let first = given.take(4);
        if first == magic {
            assert(first[0] == magic[0] && first[1] == magic[1] && first[2] == magic[2] && first[3] == magic[3]);
        } else if given[0] == 0x64 && given[1] == 0x67 && given[2] == 0x72 && given[3] == 0x50 {
            assert(first =~= magic);
        }
        if given.len() >= 6 {
            let two = given.skip(4).take(2);
            reveal_with_fuel(bytes::from_le, 3);
            assert(two.drop_first() =~= seq![given[5]]);
            assert(two.drop_first().drop_first() =~= Seq::<u8>::empty());
            assert(bytes::from_le(two) == given[4] + 256 * given[5]);
        }
    }
}

/// Whether a read was refused because the bytes ran out.
pub open spec fn ran_out<V>(read: Parsed<V>, context: Seq<char>, needed: int, available: int) -> bool {
    read == Err::<(V, int), ErrorView>(ErrorView::Truncated { context, needed, available })
}

/// A value of a fixed width is refused where the bytes are fewer, and told how many it
/// needs and how many there are.
pub proof fn law_too_few_bytes_are_refused(given: Seq<u8>)
    ensures
        ({
            let n = given.len() as int;
            &&& n < 1 ==> ran_out(<u8 as Codec>::parse(given), "u8"@, 1, n)
            &&& n < 2 ==> ran_out(<u16 as Codec>::parse(given), "u16"@, 2, n)
            &&& n < 4 ==> ran_out(<u32 as Codec>::parse(given), "u32"@, 4, n)
            &&& n < 8 ==> ran_out(<u64 as Codec>::parse(given), "u64"@, 8, n)
            &&& n < 16 ==> ran_out(<u128 as Codec>::parse(given), "u128"@, 16, n)
            &&& n < 8 ==> ran_out(<usize as Codec>::parse(given), "usize"@, 8, n)
            &&& n < 1 ==> ran_out(<i8 as Codec>::parse(given), "i8"@, 1, n)
            &&& n < 2 ==> ran_out(<i16 as Codec>::parse(given), "i16"@, 2, n)
            &&& n < 4 ==> ran_out(<i32 as Codec>::parse(given), "i32"@, 4, n)
            &&& n < 8 ==> ran_out(<i64 as Codec>::parse(given), "i64"@, 8, n)
            &&& n < 16 ==> ran_out(<i128 as Codec>::parse(given), "i128"@, 16, n)
            &&& n < 8 ==> ran_out(<isize as Codec>::parse(given), "isize"@, 8, n)
            &&& n < 1 ==> ran_out(<bool as Codec>::parse(given), "bool"@, 1, 0)
            &&& n < 8 ==> ran_out(<String as Codec>::parse(given), "String"@, 8, n)
        }),
{
}

/// A length of values or of a text that the bytes cannot hold is refused before anything of
/// it is read; so is a truth value or an option that is neither of its two tags.
pub proof fn law_false_lengths_and_tags_are_refused<T: Codec>(given: Seq<u8>)
    ensures
        given.len() > 0 && given[0] > 1 ==> <bool as Codec>::parse(given) == Err::<(bool, int), ErrorView>(
            ErrorView::Malformed {
                context: "bool"@,
                detail: "expected 0 or 1, found "@ + text::decimal(given[0] as nat),
                source: None,
            },
        ),
        given.len() > 0 && given[0] > 1 ==> <Option<T> as Codec>::parse(given) == Err::<
            (Option<T::Model>, int),
            ErrorView,
        >(
            ErrorView::Malformed {
                context: "Option"@,
                detail: "expected the tag 0 or 1, found "@ + text::decimal(given[0] as nat),
                source: None,
            },
        ),
        ({
            let n = bytes::from_le(given.take(8));
            let left = given.len() - 8;
            &&& given.len() >= 8 && n <= usize::MAX && n > left ==> ran_out(
                <String as Codec>::parse(given),
                "String"@,
                n as int,
                left,
            )
            &&& given.len() >= 8 && n <= usize::MAX && n > left && vstd::layout::size_of::<T>() > 0 ==> ran_out(
                <Vec<T> as Codec>::parse(given),
                "Vec"@,
                n as int,
                left,
            )
        }),
{
}

/// Keys are ordered as numbers are, a false before a true, and texts as names are.
pub proof fn law_keys_are_ordered(
    a: u64,
    b: u64,
    c: i64,
    d: i64,
    e: u128,
    f: u128,
    g: i128,
    h: i128,
    x: Seq<char>,
    y: Seq<char>,
)
    ensures
        <u128 as Key>::lt(e, f) <==> e < f,
        <i128 as Key>::lt(g, h) <==> g < h,
        isize::MIN <= c <= isize::MAX && isize::MIN <= d <= isize::MAX ==> (<isize as Key>::lt(c as isize, d as isize)
            <==> c < d),
        <u64 as Key>::lt(a, b) <==> a < b,
        <i64 as Key>::lt(c, d) <==> c < d,
        a <= u8::MAX && b <= u8::MAX ==> (<u8 as Key>::lt(a as u8, b as u8) <==> a < b),
        a <= u16::MAX && b <= u16::MAX ==> (<u16 as Key>::lt(a as u16, b as u16) <==> a < b),
        a <= u32::MAX && b <= u32::MAX ==> (<u32 as Key>::lt(a as u32, b as u32) <==> a < b),
        a <= usize::MAX && b <= usize::MAX ==> (<usize as Key>::lt(a as usize, b as usize) <==> a < b),
        i8::MIN <= c <= i8::MAX && i8::MIN <= d <= i8::MAX ==> (<i8 as Key>::lt(c as i8, d as i8) <==> c < d),
        i16::MIN <= c <= i16::MAX && i16::MIN <= d <= i16::MAX ==> (<i16 as Key>::lt(c as i16, d as i16) <==> c < d),
        i32::MIN <= c <= i32::MAX && i32::MIN <= d <= i32::MAX ==> (<i32 as Key>::lt(c as i32, d as i32) <==> c < d),
        <bool as Key>::lt(false, true) && !<bool as Key>::lt(true, false),
        !<bool as Key>::lt(true, true) && !<bool as Key>::lt(false, false),
        <String as Key>::lt(x, y) <==> text::name_lt(x, y),
{
}

/// What is encoded of a value is the value: a number as it is, a text as its characters, an
/// option, a row and values side by side each by what they hold.
pub proof fn law_values_are_encoded_as_they_are<T: Codec, U: Codec>(
    a: u64,
    b: i64,
    c: bool,
    s: String,
    x: T,
    y: U,
    row: Vec<T>,
    i: int,
)
    ensures
        a.model() == a && b.model() == b && c.model() == c,
        s.model() == s@,
        Some(x).model() == Some(x.model()),
        None::<T>.model() == None::<T::Model>,
        (x, y).model() == (x.model(), y.model()),
        row.model().len() == row@.len(),
        0 <= i < row@.len() ==> row.model()[i] == row@[i].model(),
{
}

} // verus!
