//! Little-endian numbers and framed fields in byte strings.

use vstd::prelude::*;

verus! {

/// The `width` low bytes of a number, the lowest first.
pub open spec fn le(n: nat, width: nat) -> Seq<u8>
    decreases width,
{
    if width == 0 {
        Seq::empty()
    } else {
        seq![(n % 256) as u8] + le(n / 256, (width - 1) as nat)
    }
}

/// The number that bytes make, the lowest first.
pub open spec fn from_le(bytes: Seq<u8>) -> nat
    decreases bytes.len(),
{
    if bytes.len() == 0 {
        0
    } else {
        bytes[0] as nat + 256 * from_le(bytes.drop_first())
    }
}

/// How many bytes of width there are, and what the first of them is.
pub proof fn lemma_le_len(n: nat, width: nat)
    ensures
        le(n, width).len() == width,
    decreases width,
{
    if width > 0 {
        lemma_le_len(n / 256, (width - 1) as nat);
    }
}

/// The number of values of `width` bytes.
pub open spec fn bound(width: nat) -> nat
    decreases width,
{
    if width == 0 {
        1
    } else {
        256 * bound((width - 1) as nat)
    }
}

/// The bounds of the widths in use.
pub proof fn lemma_bounds()
    ensures
        bound(1) == 0x100,
        bound(2) == 0x1_0000,
        bound(4) == 0x1_0000_0000,
        bound(8) == 0x1_0000_0000_0000_0000,
        bound(16) == 0x1_0000_0000_0000_0000_0000_0000_0000_0000,
{
    reveal_with_fuel(bound, 17);
}

/// A number that fits is read back.
pub proof fn lemma_le_round_trip(n: nat, width: nat)
    requires
        n < bound(width),
    ensures
        from_le(le(n, width)) == n,
    decreases width,
{
    if width > 0 {
        let rest = le(n / 256, (width - 1) as nat);
        assert(le(n, width).drop_first() =~= rest);
        assert(n / 256 < bound((width - 1) as nat));
        lemma_le_round_trip(n / 256, (width - 1) as nat);
    } else {
        assert(le(n, width) =~= Seq::<u8>::empty());
    }
}

/// Bytes are the little-endian form of the number that they make.
pub proof fn lemma_from_le_round_trip(bytes: Seq<u8>)
    ensures
        le(from_le(bytes), bytes.len()) == bytes,
        from_le(bytes) < bound(bytes.len()),
    decreases bytes.len(),
{
    if bytes.len() > 0 {
        let rest = bytes.drop_first();
        lemma_from_le_round_trip(rest);
        let n = from_le(bytes);
        assert(n % 256 == bytes[0] as nat);
        assert(n / 256 == from_le(rest));
        assert(le(n, bytes.len()) =~= seq![bytes[0]] + rest);
        assert(seq![bytes[0]] + rest =~= bytes);
    } else {
        assert(le(0, 0) =~= bytes);
    }
}

/// Two numbers with one form of a width that both fit are one number.
pub proof fn lemma_le_injective(a: nat, b: nat, width: nat)
    requires
        a < bound(width),
        b < bound(width),
        le(a, width) == le(b, width),
    ensures
        a == b,
{
    lemma_le_round_trip(a, width);
    lemma_le_round_trip(b, width);
}

/// Reads the number that at most sixteen bytes make, the lowest first.
pub fn read_le(bytes: &[u8]) -> (r: u128)
    requires
        bytes.len() <= 16,
    ensures
        r == from_le(bytes@),
{
    let mut n: u128 = 0;
    let mut i: usize = bytes.len();
    assert(bytes@.skip(i as int) =~= Seq::<u8>::empty());
    while i > 0
        invariant
            i <= bytes.len() <= 16,
            n == from_le(bytes@.skip(i as int)),
        decreases i,
    {
        i = i - 1;
        proof {
            let rest = bytes@.skip(i + 1);
            let all = bytes@.skip(i as int);
            assert(all.drop_first() =~= rest);
            assert(all[0] == bytes@[i as int]);
            lemma_from_le_round_trip(rest);
            lemma_from_le_round_trip(all);
            lemma_bound_monotonic(all.len(), 16);
            lemma_bounds();
        }
        n = 256 * n + bytes[i] as u128;
    }
    assert(bytes@.skip(0) =~= bytes@);
    n
}

proof fn lemma_bound_monotonic(a: nat, b: nat)
    requires
        a <= b,
    ensures
        1 <= bound(a) <= bound(b),
    decreases b,
{
    if b > a {
        lemma_bound_monotonic(a, (b - 1) as nat);
    } else if a > 0 {
        lemma_bound_monotonic((a - 1) as nat, (a - 1) as nat);
    }
}

/// Whether two byte strings are the same.
pub fn same_bytes(a: &[u8], b: &[u8]) -> (r: bool)
    ensures
        r == (a@ == b@),
{
    if a.len() != b.len() {
        return false;
    }
    let mut i: usize = 0;
    while i < a.len()
        invariant
            i <= a.len(),
            a.len() == b.len(),
            forall|k: int| 0 <= k < i ==> a@[k] == b@[k],
        decreases a.len() - i,
    {
        if a[i] != b[i] {
            return false;
        }
        i = i + 1;
    }
    assert(a@ =~= b@);
    true
}

/// Appends the little-endian form of a number.
pub fn push_le(out: &mut Vec<u8>, n: u128, width: usize)
    ensures
        final(out)@ == old(out)@ + le(n as nat, width as nat),
{
    let ghost start = out@;
    let mut rest: u128 = n;
    let mut left: usize = width;
    assert(start + le(n as nat, width as nat) =~= out@ + le(rest as nat, left as nat));
    while left > 0
        invariant
            start + le(n as nat, width as nat) == out@ + le(rest as nat, left as nat),
        decreases left,
    {
        let ghost before = out@;
        out.push((rest % 256) as u8);
        proof {
            let low = (rest % 256) as u8;
            assert(le(rest as nat, left as nat) == seq![low] + le((rest / 256) as nat, (left - 1) as nat));
            assert(before + (seq![low] + le((rest / 256) as nat, (left - 1) as nat)) =~= out@ + le(
                (rest / 256) as nat,
                (left - 1) as nat,
            ));
        }
        rest = rest / 256;
        left = left - 1;
    }
    assert(out@ + le(rest as nat, 0) =~= out@);
}

/// Appends bytes.
pub fn push_bytes(out: &mut Vec<u8>, bytes: &[u8])
    ensures
        final(out)@ == old(out)@ + bytes@,
{
    let ghost start = out@;
    let mut i: usize = 0;
    assert(start + bytes@.take(0) =~= start);
    while i < bytes.len()
        invariant
            i <= bytes.len(),
            out@ == start + bytes@.take(i as int),
        decreases bytes.len() - i,
    {
        out.push(bytes[i]);
        i = i + 1;
        assert(out@ =~= start + bytes@.take(i as int));
    }
    assert(bytes@.take(i as int) =~= bytes@);
}

/// A field framed by a tag and its length.
pub open spec fn framed(tag: u8, bytes: Seq<u8>) -> Seq<u8> {
    seq![tag] + le(bytes.len(), 8) + bytes
}

/// Appends a field framed by a tag and its length.
pub fn push_framed(out: &mut Vec<u8>, tag: u8, bytes: &[u8])
    ensures
        final(out)@ == old(out)@ + framed(tag, bytes@),
{
    out.push(tag);
    push_le(out, bytes.len() as u128, 8);
    push_bytes(out, bytes);
    assert(out@ =~= old(out)@ + framed(tag, bytes@));
}

/// Framing is unambiguous: where two byte strings that begin with a framed field are
/// the same, the tags, the fields and what follows are the same.
pub proof fn law_framing_is_unambiguous(
    tag1: u8,
    bytes1: Seq<u8>,
    rest1: Seq<u8>,
    tag2: u8,
    bytes2: Seq<u8>,
    rest2: Seq<u8>,
)
    requires
        bytes1.len() < 0x1_0000_0000_0000_0000,
        bytes2.len() < 0x1_0000_0000_0000_0000,
        framed(tag1, bytes1) + rest1 == framed(tag2, bytes2) + rest2,
    ensures
        tag1 == tag2,
        bytes1 == bytes2,
        rest1 == rest2,
{
    let a = framed(tag1, bytes1) + rest1;
    let b = framed(tag2, bytes2) + rest2;
    lemma_bounds();
    lemma_le_len(bytes1.len(), 8);
    lemma_le_len(bytes2.len(), 8);
    assert(a[0] == tag1 && b[0] == tag2);
    assert(a.subrange(1, 9) =~= le(bytes1.len(), 8));
    assert(b.subrange(1, 9) =~= le(bytes2.len(), 8));
    lemma_le_injective(bytes1.len(), bytes2.len(), 8);
    let n = bytes1.len() as int;
    assert(a.subrange(9, 9 + n) =~= bytes1);
    assert(b.subrange(9, 9 + n) =~= bytes2);
    assert(a.subrange(9 + n, a.len() as int) =~= rest1);
    assert(b.subrange(9 + n, b.len() as int) =~= rest2);
}

} // verus!
