//! Typed handles: a claim on a value that does not exist yet.
//!
//! A [`Handle`] is what registering a node gives back, and the only way to refer
//! to that node's output. Identity comes from the registration name alone, so
//! renaming a node changes its identity and reordering registrations does not.

use std::marker::PhantomData;
use vstd::prelude::*;
use vstd::utf8::*;

verus! {

/// The FNV-1a offset basis.
pub const FNV_OFFSET: u64 = 0xcbf2_9ce4_8422_2325;

/// The FNV-1a prime.
pub const FNV_PRIME: u64 = 0x0000_0100_0000_01b3;

/// The 64-bit FNV-1a digest of a byte string.
pub open spec fn fnv1a(bytes: Seq<u8>) -> u64
    decreases bytes.len(),
{
    if bytes.len() == 0 {
        FNV_OFFSET
    } else {
        (((fnv1a(bytes.drop_last()) ^ (bytes.last() as u64)) * FNV_PRIME) % 0x1_0000_0000_0000_0000) as u64
    }
}

/// Digests a byte string with FNV-1a.
pub fn fnv1a_digest(bytes: &[u8]) -> (r: u64)
    ensures
        r == fnv1a(bytes@),
{
    let mut hash: u64 = FNV_OFFSET;
    let mut i: usize = 0;
    assert(bytes@.take(0) =~= Seq::<u8>::empty());
    while i < bytes.len()
        invariant
            i <= bytes.len(),
            hash == fnv1a(bytes@.take(i as int)),
        decreases bytes.len() - i,
    {
        proof {
            let t = bytes@.take(i as int + 1);
            assert(t.drop_last() =~= bytes@.take(i as int));
            assert(t.last() == bytes@[i as int]);
        }
        hash = (hash ^ (bytes[i] as u64)).wrapping_mul(FNV_PRIME);
        i = i + 1;
    }
    assert(bytes@.take(bytes@.len() as int) =~= bytes@);
    hash
}

/// A node's identity: an opaque token derived from its registration name.
#[derive(Debug, Clone, Copy, PartialEq, Eq, Hash, Structural)]
pub struct NodeId(u64);

/// The identity of the node registered under `name`.
pub closed spec fn node_id(name: Seq<char>) -> NodeId {
    NodeId(fnv1a(encode_utf8(name)))
}

impl View for NodeId {
    type V = u64;

    closed spec fn view(&self) -> u64 {
        self.0
    }
}

/// Two identities with one token are one identity.
pub broadcast proof fn lemma_node_id_ext(a: NodeId, b: NodeId)
    requires
        #[trigger] a.view() == #[trigger] b.view(),
    ensures
        a == b,
{
}

/// The identity of a node is the FNV-1a digest of its name's bytes, and so depends on
/// nothing but the name.
pub proof fn law_identity_comes_from_the_name(name: Seq<char>)
    ensures
        node_id(name)@ == fnv1a(encode_utf8(name)),
{
}

proof fn lemma_product_injective(a: u64, b: u64)
    requires
        (a * FNV_PRIME) % 0x1_0000_0000_0000_0000 == (b * FNV_PRIME) % 0x1_0000_0000_0000_0000,
    ensures
        a == b,
{
    lemma_product_undone(a);
    lemma_product_undone(b);
}

/// The prime has an inverse among the words, which takes a word back out of its product.
proof fn lemma_product_undone(x: u64)
    ensures
        (((x * FNV_PRIME) % 0x1_0000_0000_0000_0000) * 0xce96_5057_aff6_957b) % 0x1_0000_0000_0000_0000 == x,
{
    let m: int = 0x1_0000_0000_0000_0000;
    let q: int = 0xce96_5057_aff6_957b;
    let whole: int = 887_285_111_055;
    let product = x * FNV_PRIME;
    vstd::arithmetic::div_mod::lemma_mul_mod_noop_left(product, q, m);
    assert(FNV_PRIME * q == 1 + whole * m);
    assert(product * q == x + (x * whole) * m) by (nonlinear_arith)
        requires
            product == x * FNV_PRIME,
            FNV_PRIME * q == 1 + whole * m,
    ;
    vstd::arithmetic::div_mod::lemma_mod_multiples_vanish(x * whole, x as int, m);
    assert(m * (x * whole) + x == x + (x * whole) * m) by (nonlinear_arith);
    vstd::arithmetic::div_mod::lemma_small_mod(x as nat, m as nat);
}

/// The digest of no bytes is the offset basis; a further byte is joined to the lowest bits
/// of the digest before it, which is then multiplied by the prime, modulo the size of a word.
pub proof fn law_the_digest_takes_byte_after_byte(bytes: Seq<u8>, byte: u8)
    ensures
        fnv1a(Seq::empty()) == 14_695_981_039_346_656_037,
        fnv1a(bytes.push(byte)) == ((fnv1a(bytes) ^ (byte as u64)) * 1_099_511_628_211) % 18_446_744_073_709_551_616,
{
    assert(bytes.push(byte).drop_last() =~= bytes);
}

/// Changing one byte of a text changes its digest.
pub proof fn law_one_byte_changes_the_digest(a: Seq<u8>, b: Seq<u8>, k: int)
    requires
        a.len() == b.len(),
        0 <= k < a.len(),
        a[k] != b[k],
        forall|i: int| 0 <= i < a.len() && i != k ==> a[i] == b[i],
    ensures
        fnv1a(a) != fnv1a(b),
    decreases a.len(),
{
    let last = a.len() - 1;
    let ha = fnv1a(a.drop_last());
    let hb = fnv1a(b.drop_last());
    let xa = a.last() as u64;
    let xb = b.last() as u64;
    if k == last {
        assert(a.drop_last() =~= b.drop_last());
        assert(ha ^ xa != ha ^ xb) by (bit_vector)
            requires
                xa != xb,
        ;
    } else {
        law_one_byte_changes_the_digest(a.drop_last(), b.drop_last(), k);
        assert(xa == xb);
        assert(ha ^ xa != hb ^ xa) by (bit_vector)
            requires
                ha != hb,
        ;
    }
    if fnv1a(a) == fnv1a(b) {
        lemma_product_injective(ha ^ xa, hb ^ xb);
    }
}

/// Renaming a node by one byte of its name changes its identity.
pub proof fn law_renaming_changes_the_identity(a: Seq<char>, b: Seq<char>, k: int)
    requires
        encode_utf8(a).len() == encode_utf8(b).len(),
        0 <= k < encode_utf8(a).len(),
        encode_utf8(a)[k] != encode_utf8(b)[k],
        forall|i: int| 0 <= i < encode_utf8(a).len() && i != k ==> encode_utf8(a)[i] == encode_utf8(b)[i],
    ensures
        node_id(a) != node_id(b),
{
    law_one_byte_changes_the_digest(encode_utf8(a), encode_utf8(b), k);
}

impl NodeId {
    /// Derives the identity of a node registered under `name`. It is a pure
    /// function of the name: no registry is consulted and no handle is made.
    #[must_use]
    pub fn from_name(name: &str) -> (r: Self)
        ensures
            r == node_id(name@),
            r@ == fnv1a(encode_utf8(name@)),
    {
        NodeId(fnv1a_digest(name.as_bytes()))
    }

    /// The token as a stable sort key.
    #[must_use]
    pub(crate) fn sort_key(self) -> (r: u64)
        ensures
            r == self@,
    {
        self.0
    }
}

/// The value type a handle names. Nothing implements it: it lets a handle carry a
/// type without owning a value of it, so a handle can be sent and shared between
/// threads whatever that type is.
pub trait Produces<T>: Send + Sync {

}

/// A typed claim on a value that does not exist yet: the identity of the node
/// that will produce it, and the type of what it will produce.
#[verifier::reject_recursive_types(T)]
pub struct Handle<T> {
    id: NodeId,
    value: PhantomData<Box<dyn Produces<T>>>,
}

impl<T> View for Handle<T> {
    type V = NodeId;

    closed spec fn view(&self) -> NodeId {
        self.id
    }
}

impl<T> Clone for Handle<T> {
    fn clone(&self) -> (r: Self)
        ensures
            r == *self,
    {
        *self
    }
}

impl<T> Copy for Handle<T> {

}

impl<T> Handle<T> {
    /// Mints the handle for a node registered under `name`.
    pub(crate) fn for_registration(name: &str) -> (r: Self)
        ensures
            r@ == node_id(name@),
    {
        Handle { id: NodeId::from_name(name), value: PhantomData }
    }

    /// The identity of the node this handle refers to.
    #[must_use]
    pub fn id(self) -> (r: NodeId)
        ensures
            r == self@,
    {
        self.id
    }
}

} // verus!
