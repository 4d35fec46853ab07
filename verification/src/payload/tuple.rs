//! Codecs of tuples: the bytes of the elements in order.

use super::{Codec, CodecError, Cursor, ErrorView, Parsed};
use vstd::prelude::*;

verus! {

/// Reads a value after another.
pub open spec fn parse_then<V, T: Codec>(before: Parsed<V>, bytes: Seq<u8>) -> Parsed<(V, T::Model)> {
    match before {
        Ok((v, k)) => match T::parse(bytes.skip(k)) {
            Ok((w, m)) => Ok(((v, w), k + m)),
            Err(e) => Err(e),
        },
        Err(e) => Err(e),
    }
}

proof fn lemma_then_round_trip<V, T: Codec>(before: Parsed<V>, v: V, head: Seq<u8>, w: T::Model, rest: Seq<u8>, bytes: Seq<u8>)
    requires
        before == Ok::<_, ErrorView>((v, head.len() as int)),
        T::representable(w),
        bytes == (head + T::body(w)) + rest,
    ensures
        parse_then::<V, T>(before, bytes) == Ok::<_, ErrorView>(((v, w), (head + T::body(w)).len() as int)),
{
    assert(bytes.skip(head.len() as int) =~= T::body(w) + rest);
    T::law_round_trip(w, rest);
}

proof fn lemma_then_canonical<V, T: Codec>(before: Parsed<V>, bytes: Seq<u8>)
    requires
        parse_then::<V, T>(before, bytes) is Ok,
        0 <= before->Ok_0.1 <= bytes.len(),
    ensures
        before is Ok,
        0 <= parse_then::<V, T>(before, bytes)->Ok_0.1 <= bytes.len(),
        bytes.take(parse_then::<V, T>(before, bytes)->Ok_0.1) == bytes.take(before->Ok_0.1) + T::body(
            parse_then::<V, T>(before, bytes)->Ok_0.0.1,
        ),
{
    let k = before->Ok_0.1;
    T::law_canonical(bytes.skip(k));
    let m = T::parse(bytes.skip(k))->Ok_0.1;
    assert(bytes.take(k + m) =~= bytes.take(k) + bytes.skip(k).take(m));
}

impl<T0: Codec> Codec for (T0,) {
    type Model = (T0::Model,);

    open spec fn model(&self) -> Self::Model {
        (self.0.model(),)
    }

    open spec fn body(v: Self::Model) -> Seq<u8> {
        T0::body(v.0)
    }

    open spec fn parse(bytes: Seq<u8>) -> Parsed<Self::Model> {
        match T0::parse(bytes) {
            Ok((v0, k)) => Ok(((v0,), k)),
            Err(e) => Err(e),
        }
    }

    open spec fn sound() -> bool {
        T0::sound()
    }

    open spec fn representable(v: Self::Model) -> bool {
        T0::representable(v.0)
    }

    fn encode_body(&self, out: &mut Vec<u8>) {
        let ghost start = out@;
        self.0.encode_body(out);
        assert(out@ =~= start + Self::body(self.model()));
    }

    fn decode_body(cursor: &mut Cursor<'_>) -> (r: Result<Self, CodecError>) {
        let ghost start = cursor@;
        let v0 = match T0::decode_body(cursor) {
            Ok(v) => v,
            Err(e) => return Err(e),
        };
        Ok((v0,))
    }

    proof fn law_round_trip(v: Self::Model, rest: Seq<u8>) {
        let bytes = Self::body(v) + rest;
        let r1 = rest;
        T0::law_round_trip(v.0, r1);
    }

    proof fn law_canonical(bytes: Seq<u8>) {
        let p0 = T0::parse(bytes);
        T0::law_canonical(bytes);
    }
}

impl<T0: Codec, T1: Codec> Codec for (T0, T1) {
    type Model = (T0::Model, T1::Model);

    open spec fn model(&self) -> Self::Model {
        (self.0.model(), self.1.model())
    }

    open spec fn body(v: Self::Model) -> Seq<u8> {
        T0::body(v.0) + T1::body(v.1)
    }

    open spec fn parse(bytes: Seq<u8>) -> Parsed<Self::Model> {
        let p1 = parse_then::<_, T1>(T0::parse(bytes), bytes);
        match p1 {
            Ok(((v0, v1), k)) => Ok(((v0, v1), k)),
            Err(e) => Err(e),
        }
    }

    open spec fn sound() -> bool {
        T0::sound() && T1::sound()
    }

    open spec fn representable(v: Self::Model) -> bool {
        T0::representable(v.0) && T1::representable(v.1)
    }

    fn encode_body(&self, out: &mut Vec<u8>) {
        let ghost start = out@;
        self.0.encode_body(out);
        self.1.encode_body(out);
        assert(out@ =~= start + Self::body(self.model()));
    }

    fn decode_body(cursor: &mut Cursor<'_>) -> (r: Result<Self, CodecError>) {
        let ghost start = cursor@;
        let v0 = match T0::decode_body(cursor) {
            Ok(v) => v,
            Err(e) => return Err(e),
        };
        proof {
            T0::law_canonical(start.rest());
        }
        let ghost at1 = cursor@.position - start.position;
        assert(cursor@.rest() =~= start.rest().skip(cursor@.position - start.position));
        let v1 = match T1::decode_body(cursor) {
            Ok(v) => v,
            Err(e) => return Err(e),
        };
        Ok((v0, v1))
    }

    proof fn law_round_trip(v: Self::Model, rest: Seq<u8>) {
        let bytes = Self::body(v) + rest;
        let r2 = rest;
        let r1 = T1::body(v.1) + r2;
        assert((T0::body(v.0) + T1::body(v.1)) + r2 =~= (T0::body(v.0)) + r1);
        T0::law_round_trip(v.0, r1);
        let p0 = T0::parse(bytes);
        let p1 = parse_then::<_, T1>(p0, bytes);
        lemma_then_round_trip::<_, T1>(p0, v.0, T0::body(v.0), v.1, r2, bytes);
    }

    proof fn law_canonical(bytes: Seq<u8>) {
        let p0 = T0::parse(bytes);
        T0::law_canonical(bytes);
        let p1 = parse_then::<_, T1>(p0, bytes);
        lemma_then_canonical::<_, T1>(p0, bytes);
    }
}

impl<T0: Codec, T1: Codec, T2: Codec> Codec for (T0, T1, T2) {
    type Model = (T0::Model, T1::Model, T2::Model);

    open spec fn model(&self) -> Self::Model {
        (self.0.model(), self.1.model(), self.2.model())
    }

    open spec fn body(v: Self::Model) -> Seq<u8> {
        T0::body(v.0) + T1::body(v.1) + T2::body(v.2)
    }

    open spec fn parse(bytes: Seq<u8>) -> Parsed<Self::Model> {
        let p1 = parse_then::<_, T1>(T0::parse(bytes), bytes);
        let p2 = parse_then::<_, T2>(p1, bytes);
        match p2 {
            Ok((((v0, v1), v2), k)) => Ok(((v0, v1, v2), k)),
            Err(e) => Err(e),
        }
    }

    open spec fn sound() -> bool {
        T0::sound() && T1::sound() && T2::sound()
    }

    open spec fn representable(v: Self::Model) -> bool {
        T0::representable(v.0) && T1::representable(v.1) && T2::representable(v.2)
    }

    fn encode_body(&self, out: &mut Vec<u8>) {
        let ghost start = out@;
        self.0.encode_body(out);
        self.1.encode_body(out);
        self.2.encode_body(out);
        assert(out@ =~= start + Self::body(self.model()));
    }

    fn decode_body(cursor: &mut Cursor<'_>) -> (r: Result<Self, CodecError>) {
        let ghost start = cursor@;
        let v0 = match T0::decode_body(cursor) {
            Ok(v) => v,
            Err(e) => return Err(e),
        };
        proof {
            T0::law_canonical(start.rest());
        }
        let ghost at1 = cursor@.position - start.position;
        assert(cursor@.rest() =~= start.rest().skip(cursor@.position - start.position));
        let v1 = match T1::decode_body(cursor) {
            Ok(v) => v,
            Err(e) => return Err(e),
        };
        proof {
            T1::law_canonical(start.rest().skip(at1));
        }
        let ghost at2 = cursor@.position - start.position;
        assert(cursor@.rest() =~= start.rest().skip(cursor@.position - start.position));
        let v2 = match T2::decode_body(cursor) {
            Ok(v) => v,
            Err(e) => return Err(e),
        };
        Ok((v0, v1, v2))
    }

    proof fn law_round_trip(v: Self::Model, rest: Seq<u8>) {
        let bytes = Self::body(v) + rest;
        let r3 = rest;
        let r2 = T2::body(v.2) + r3;
        let r1 = T1::body(v.1) + r2;
        assert((T0::body(v.0) + T1::body(v.1) + T2::body(v.2)) + r3 =~= (T0::body(v.0) + T1::body(v.1)) + r2);
        assert((T0::body(v.0) + T1::body(v.1)) + r2 =~= (T0::body(v.0)) + r1);
        T0::law_round_trip(v.0, r1);
        let p0 = T0::parse(bytes);
        let p1 = parse_then::<_, T1>(p0, bytes);
        lemma_then_round_trip::<_, T1>(p0, v.0, T0::body(v.0), v.1, r2, bytes);
        let p2 = parse_then::<_, T2>(p1, bytes);
        lemma_then_round_trip::<_, T2>(p1, (v.0, v.1), T0::body(v.0) + T1::body(v.1), v.2, r3, bytes);
    }

    proof fn law_canonical(bytes: Seq<u8>) {
        let p0 = T0::parse(bytes);
        T0::law_canonical(bytes);
        let p1 = parse_then::<_, T1>(p0, bytes);
        lemma_then_canonical::<_, T1>(p0, bytes);
        let p2 = parse_then::<_, T2>(p1, bytes);
        lemma_then_canonical::<_, T2>(p1, bytes);
    }
}

impl<T0: Codec, T1: Codec, T2: Codec, T3: Codec> Codec for (T0, T1, T2, T3) {
    type Model = (T0::Model, T1::Model, T2::Model, T3::Model);

    open spec fn model(&self) -> Self::Model {
        (self.0.model(), self.1.model(), self.2.model(), self.3.model())
    }

    open spec fn body(v: Self::Model) -> Seq<u8> {
        T0::body(v.0) + T1::body(v.1) + T2::body(v.2) + T3::body(v.3)
    }

    open spec fn parse(bytes: Seq<u8>) -> Parsed<Self::Model> {
        let p1 = parse_then::<_, T1>(T0::parse(bytes), bytes);
        let p2 = parse_then::<_, T2>(p1, bytes);
        let p3 = parse_then::<_, T3>(p2, bytes);
        match p3 {
            Ok(((((v0, v1), v2), v3), k)) => Ok(((v0, v1, v2, v3), k)),
            Err(e) => Err(e),
        }
    }

    open spec fn sound() -> bool {
        T0::sound() && T1::sound() && T2::sound() && T3::sound()
    }

    open spec fn representable(v: Self::Model) -> bool {
        T0::representable(v.0) && T1::representable(v.1) && T2::representable(v.2) && T3::representable(v.3)
    }

    fn encode_body(&self, out: &mut Vec<u8>) {
        let ghost start = out@;
        self.0.encode_body(out);
        self.1.encode_body(out);
        self.2.encode_body(out);
        self.3.encode_body(out);
        assert(out@ =~= start + Self::body(self.model()));
    }

    fn decode_body(cursor: &mut Cursor<'_>) -> (r: Result<Self, CodecError>) {
        let ghost start = cursor@;
        let v0 = match T0::decode_body(cursor) {
            Ok(v) => v,
            Err(e) => return Err(e),
        };
        proof {
            T0::law_canonical(start.rest());
        }
        let ghost at1 = cursor@.position - start.position;
        assert(cursor@.rest() =~= start.rest().skip(cursor@.position - start.position));
        let v1 = match T1::decode_body(cursor) {
            Ok(v) => v,
            Err(e) => return Err(e),
        };
        proof {
            T1::law_canonical(start.rest().skip(at1));
        }
        let ghost at2 = cursor@.position - start.position;
        assert(cursor@.rest() =~= start.rest().skip(cursor@.position - start.position));
        let v2 = match T2::decode_body(cursor) {
            Ok(v) => v,
            Err(e) => return Err(e),
        };
        proof {
            T2::law_canonical(start.rest().skip(at2));
        }
        let ghost at3 = cursor@.position - start.position;
        assert(cursor@.rest() =~= start.rest().skip(cursor@.position - start.position));
        let v3 = match T3::decode_body(cursor) {
            Ok(v) => v,
            Err(e) => return Err(e),
        };
        Ok((v0, v1, v2, v3))
    }

    proof fn law_round_trip(v: Self::Model, rest: Seq<u8>) {
        let bytes = Self::body(v) + rest;
        let r4 = rest;
        let r3 = T3::body(v.3) + r4;
        let r2 = T2::body(v.2) + r3;
        let r1 = T1::body(v.1) + r2;
        assert((T0::body(v.0) + T1::body(v.1) + T2::body(v.2) + T3::body(v.3)) + r4 =~= (T0::body(v.0) + T1::body(v.1) + T2::body(v.2)) + r3);
        assert((T0::body(v.0) + T1::body(v.1) + T2::body(v.2)) + r3 =~= (T0::body(v.0) + T1::body(v.1)) + r2);
        assert((T0::body(v.0) + T1::body(v.1)) + r2 =~= (T0::body(v.0)) + r1);
        T0::law_round_trip(v.0, r1);
        let p0 = T0::parse(bytes);
        let p1 = parse_then::<_, T1>(p0, bytes);
        lemma_then_round_trip::<_, T1>(p0, v.0, T0::body(v.0), v.1, r2, bytes);
        let p2 = parse_then::<_, T2>(p1, bytes);
        lemma_then_round_trip::<_, T2>(p1, (v.0, v.1), T0::body(v.0) + T1::body(v.1), v.2, r3, bytes);
        let p3 = parse_then::<_, T3>(p2, bytes);
        lemma_then_round_trip::<_, T3>(p2, ((v.0, v.1), v.2), T0::body(v.0) + T1::body(v.1) + T2::body(v.2), v.3, r4, bytes);
    }

    proof fn law_canonical(bytes: Seq<u8>) {
        let p0 = T0::parse(bytes);
        T0::law_canonical(bytes);
        let p1 = parse_then::<_, T1>(p0, bytes);
        lemma_then_canonical::<_, T1>(p0, bytes);
        let p2 = parse_then::<_, T2>(p1, bytes);
        lemma_then_canonical::<_, T2>(p1, bytes);
        let p3 = parse_then::<_, T3>(p2, bytes);
        lemma_then_canonical::<_, T3>(p2, bytes);
    }
}

impl<T0: Codec, T1: Codec, T2: Codec, T3: Codec, T4: Codec> Codec for (T0, T1, T2, T3, T4) {
    type Model = (T0::Model, T1::Model, T2::Model, T3::Model, T4::Model);

    open spec fn model(&self) -> Self::Model {
        (self.0.model(), self.1.model(), self.2.model(), self.3.model(), self.4.model())
    }

    open spec fn body(v: Self::Model) -> Seq<u8> {
        T0::body(v.0) + T1::body(v.1) + T2::body(v.2) + T3::body(v.3) + T4::body(v.4)
    }

    open spec fn parse(bytes: Seq<u8>) -> Parsed<Self::Model> {
        let p1 = parse_then::<_, T1>(T0::parse(bytes), bytes);
        let p2 = parse_then::<_, T2>(p1, bytes);
        let p3 = parse_then::<_, T3>(p2, bytes);
        let p4 = parse_then::<_, T4>(p3, bytes);
        match p4 {
            Ok((((((v0, v1), v2), v3), v4), k)) => Ok(((v0, v1, v2, v3, v4), k)),
            Err(e) => Err(e),
        }
    }

    open spec fn sound() -> bool {
        T0::sound() && T1::sound() && T2::sound() && T3::sound() && T4::sound()
    }

    open spec fn representable(v: Self::Model) -> bool {
        T0::representable(v.0) && T1::representable(v.1) && T2::representable(v.2) && T3::representable(v.3) && T4::representable(v.4)
    }

    fn encode_body(&self, out: &mut Vec<u8>) {
        let ghost start = out@;
        self.0.encode_body(out);
        self.1.encode_body(out);
        self.2.encode_body(out);
        self.3.encode_body(out);
        self.4.encode_body(out);
        assert(out@ =~= start + Self::body(self.model()));
    }

    fn decode_body(cursor: &mut Cursor<'_>) -> (r: Result<Self, CodecError>) {
        let ghost start = cursor@;
        let v0 = match T0::decode_body(cursor) {
            Ok(v) => v,
            Err(e) => return Err(e),
        };
        proof {
            T0::law_canonical(start.rest());
        }
        let ghost at1 = cursor@.position - start.position;
        assert(cursor@.rest() =~= start.rest().skip(cursor@.position - start.position));
        let v1 = match T1::decode_body(cursor) {
            Ok(v) => v,
            Err(e) => return Err(e),
        };
        proof {
            T1::law_canonical(start.rest().skip(at1));
        }
        let ghost at2 = cursor@.position - start.position;
        assert(cursor@.rest() =~= start.rest().skip(cursor@.position - start.position));
        let v2 = match T2::decode_body(cursor) {
            Ok(v) => v,
            Err(e) => return Err(e),
        };
        proof {
            T2::law_canonical(start.rest().skip(at2));
        }
        let ghost at3 = cursor@.position - start.position;
        assert(cursor@.rest() =~= start.rest().skip(cursor@.position - start.position));
        let v3 = match T3::decode_body(cursor) {
            Ok(v) => v,
            Err(e) => return Err(e),
        };
        proof {
            T3::law_canonical(start.rest().skip(at3));
        }
        let ghost at4 = cursor@.position - start.position;
        assert(cursor@.rest() =~= start.rest().skip(cursor@.position - start.position));
        let v4 = match T4::decode_body(cursor) {
            Ok(v) => v,
            Err(e) => return Err(e),
        };
        Ok((v0, v1, v2, v3, v4))
    }

    proof fn law_round_trip(v: Self::Model, rest: Seq<u8>) {
        let bytes = Self::body(v) + rest;
        let r5 = rest;
        let r4 = T4::body(v.4) + r5;
        let r3 = T3::body(v.3) + r4;
        let r2 = T2::body(v.2) + r3;
        let r1 = T1::body(v.1) + r2;
        assert((T0::body(v.0) + T1::body(v.1) + T2::body(v.2) + T3::body(v.3) + T4::body(v.4)) + r5 =~= (T0::body(v.0) + T1::body(v.1) + T2::body(v.2) + T3::body(v.3)) + r4);
        assert((T0::body(v.0) + T1::body(v.1) + T2::body(v.2) + T3::body(v.3)) + r4 =~= (T0::body(v.0) + T1::body(v.1) + T2::body(v.2)) + r3);
        assert((T0::body(v.0) + T1::body(v.1) + T2::body(v.2)) + r3 =~= (T0::body(v.0) + T1::body(v.1)) + r2);
        assert((T0::body(v.0) + T1::body(v.1)) + r2 =~= (T0::body(v.0)) + r1);
        T0::law_round_trip(v.0, r1);
        let p0 = T0::parse(bytes);
        let p1 = parse_then::<_, T1>(p0, bytes);
        lemma_then_round_trip::<_, T1>(p0, v.0, T0::body(v.0), v.1, r2, bytes);
        let p2 = parse_then::<_, T2>(p1, bytes);
        lemma_then_round_trip::<_, T2>(p1, (v.0, v.1), T0::body(v.0) + T1::body(v.1), v.2, r3, bytes);
        let p3 = parse_then::<_, T3>(p2, bytes);
        lemma_then_round_trip::<_, T3>(p2, ((v.0, v.1), v.2), T0::body(v.0) + T1::body(v.1) + T2::body(v.2), v.3, r4, bytes);
        let p4 = parse_then::<_, T4>(p3, bytes);
        lemma_then_round_trip::<_, T4>(p3, (((v.0, v.1), v.2), v.3), T0::body(v.0) + T1::body(v.1) + T2::body(v.2) + T3::body(v.3), v.4, r5, bytes);
    }

    proof fn law_canonical(bytes: Seq<u8>) {
        let p0 = T0::parse(bytes);
        T0::law_canonical(bytes);
        let p1 = parse_then::<_, T1>(p0, bytes);
        lemma_then_canonical::<_, T1>(p0, bytes);
        let p2 = parse_then::<_, T2>(p1, bytes);
        lemma_then_canonical::<_, T2>(p1, bytes);
        let p3 = parse_then::<_, T3>(p2, bytes);
        lemma_then_canonical::<_, T3>(p2, bytes);
        let p4 = parse_then::<_, T4>(p3, bytes);
        lemma_then_canonical::<_, T4>(p3, bytes);
    }
}

impl<T0: Codec, T1: Codec, T2: Codec, T3: Codec, T4: Codec, T5: Codec> Codec for (T0, T1, T2, T3, T4, T5) {
    type Model = (T0::Model, T1::Model, T2::Model, T3::Model, T4::Model, T5::Model);

    open spec fn model(&self) -> Self::Model {
        (self.0.model(), self.1.model(), self.2.model(), self.3.model(), self.4.model(), self.5.model())
    }

    open spec fn body(v: Self::Model) -> Seq<u8> {
        T0::body(v.0) + T1::body(v.1) + T2::body(v.2) + T3::body(v.3) + T4::body(v.4) + T5::body(v.5)
    }

    open spec fn parse(bytes: Seq<u8>) -> Parsed<Self::Model> {
        let p1 = parse_then::<_, T1>(T0::parse(bytes), bytes);
        let p2 = parse_then::<_, T2>(p1, bytes);
        let p3 = parse_then::<_, T3>(p2, bytes);
        let p4 = parse_then::<_, T4>(p3, bytes);
        let p5 = parse_then::<_, T5>(p4, bytes);
        match p5 {
            Ok(((((((v0, v1), v2), v3), v4), v5), k)) => Ok(((v0, v1, v2, v3, v4, v5), k)),
            Err(e) => Err(e),
        }
    }

    open spec fn sound() -> bool {
        T0::sound() && T1::sound() && T2::sound() && T3::sound() && T4::sound() && T5::sound()
    }

    open spec fn representable(v: Self::Model) -> bool {
        T0::representable(v.0) && T1::representable(v.1) && T2::representable(v.2) && T3::representable(v.3) && T4::representable(v.4) && T5::representable(v.5)
    }

    fn encode_body(&self, out: &mut Vec<u8>) {
        let ghost start = out@;
        self.0.encode_body(out);
        self.1.encode_body(out);
        self.2.encode_body(out);
        self.3.encode_body(out);
        self.4.encode_body(out);
        self.5.encode_body(out);
        assert(out@ =~= start + Self::body(self.model()));
    }

    fn decode_body(cursor: &mut Cursor<'_>) -> (r: Result<Self, CodecError>) {
        let ghost start = cursor@;
        let v0 = match T0::decode_body(cursor) {
            Ok(v) => v,
            Err(e) => return Err(e),
        };
        proof {
            T0::law_canonical(start.rest());
        }
        let ghost at1 = cursor@.position - start.position;
        assert(cursor@.rest() =~= start.rest().skip(cursor@.position - start.position));
        let v1 = match T1::decode_body(cursor) {
            Ok(v) => v,
            Err(e) => return Err(e),
        };
        proof {
            T1::law_canonical(start.rest().skip(at1));
        }
        let ghost at2 = cursor@.position - start.position;
        assert(cursor@.rest() =~= start.rest().skip(cursor@.position - start.position));
        let v2 = match T2::decode_body(cursor) {
            Ok(v) => v,
            Err(e) => return Err(e),
        };
        proof {
            T2::law_canonical(start.rest().skip(at2));
        }
        let ghost at3 = cursor@.position - start.position;
        assert(cursor@.rest() =~= start.rest().skip(cursor@.position - start.position));
        let v3 = match T3::decode_body(cursor) {
            Ok(v) => v,
            Err(e) => return Err(e),
        };
        proof {
            T3::law_canonical(start.rest().skip(at3));
        }
        let ghost at4 = cursor@.position - start.position;
        assert(cursor@.rest() =~= start.rest().skip(cursor@.position - start.position));
        let v4 = match T4::decode_body(cursor) {
            Ok(v) => v,
            Err(e) => return Err(e),
        };
        proof {
            T4::law_canonical(start.rest().skip(at4));
        }
        let ghost at5 = cursor@.position - start.position;
        assert(cursor@.rest() =~= start.rest().skip(cursor@.position - start.position));
        let v5 = match T5::decode_body(cursor) {
            Ok(v) => v,
            Err(e) => return Err(e),
        };
        Ok((v0, v1, v2, v3, v4, v5))
    }

    proof fn law_round_trip(v: Self::Model, rest: Seq<u8>) {
        let bytes = Self::body(v) + rest;
        let r6 = rest;
        let r5 = T5::body(v.5) + r6;
        let r4 = T4::body(v.4) + r5;
        let r3 = T3::body(v.3) + r4;
        let r2 = T2::body(v.2) + r3;
        let r1 = T1::body(v.1) + r2;
        assert((T0::body(v.0) + T1::body(v.1) + T2::body(v.2) + T3::body(v.3) + T4::body(v.4) + T5::body(v.5)) + r6 =~= (T0::body(v.0) + T1::body(v.1) + T2::body(v.2) + T3::body(v.3) + T4::body(v.4)) + r5);
        assert((T0::body(v.0) + T1::body(v.1) + T2::body(v.2) + T3::body(v.3) + T4::body(v.4)) + r5 =~= (T0::body(v.0) + T1::body(v.1) + T2::body(v.2) + T3::body(v.3)) + r4);
        assert((T0::body(v.0) + T1::body(v.1) + T2::body(v.2) + T3::body(v.3)) + r4 =~= (T0::body(v.0) + T1::body(v.1) + T2::body(v.2)) + r3);
        assert((T0::body(v.0) + T1::body(v.1) + T2::body(v.2)) + r3 =~= (T0::body(v.0) + T1::body(v.1)) + r2);
        assert((T0::body(v.0) + T1::body(v.1)) + r2 =~= (T0::body(v.0)) + r1);
        T0::law_round_trip(v.0, r1);
        let p0 = T0::parse(bytes);
        let p1 = parse_then::<_, T1>(p0, bytes);
        lemma_then_round_trip::<_, T1>(p0, v.0, T0::body(v.0), v.1, r2, bytes);
        let p2 = parse_then::<_, T2>(p1, bytes);
        lemma_then_round_trip::<_, T2>(p1, (v.0, v.1), T0::body(v.0) + T1::body(v.1), v.2, r3, bytes);
        let p3 = parse_then::<_, T3>(p2, bytes);
        lemma_then_round_trip::<_, T3>(p2, ((v.0, v.1), v.2), T0::body(v.0) + T1::body(v.1) + T2::body(v.2), v.3, r4, bytes);
        let p4 = parse_then::<_, T4>(p3, bytes);
        lemma_then_round_trip::<_, T4>(p3, (((v.0, v.1), v.2), v.3), T0::body(v.0) + T1::body(v.1) + T2::body(v.2) + T3::body(v.3), v.4, r5, bytes);
        let p5 = parse_then::<_, T5>(p4, bytes);
        lemma_then_round_trip::<_, T5>(p4, ((((v.0, v.1), v.2), v.3), v.4), T0::body(v.0) + T1::body(v.1) + T2::body(v.2) + T3::body(v.3) + T4::body(v.4), v.5, r6, bytes);
    }

    proof fn law_canonical(bytes: Seq<u8>) {
        let p0 = T0::parse(bytes);
        T0::law_canonical(bytes);
        let p1 = parse_then::<_, T1>(p0, bytes);
        lemma_then_canonical::<_, T1>(p0, bytes);
        let p2 = parse_then::<_, T2>(p1, bytes);
        lemma_then_canonical::<_, T2>(p1, bytes);
        let p3 = parse_then::<_, T3>(p2, bytes);
        lemma_then_canonical::<_, T3>(p2, bytes);
        let p4 = parse_then::<_, T4>(p3, bytes);
        lemma_then_canonical::<_, T4>(p3, bytes);
        let p5 = parse_then::<_, T5>(p4, bytes);
        lemma_then_canonical::<_, T5>(p4, bytes);
    }
}

impl<T0: Codec, T1: Codec, T2: Codec, T3: Codec, T4: Codec, T5: Codec, T6: Codec> Codec for (T0, T1, T2, T3, T4, T5, T6) {
    type Model = (T0::Model, T1::Model, T2::Model, T3::Model, T4::Model, T5::Model, T6::Model);

    open spec fn model(&self) -> Self::Model {
        (self.0.model(), self.1.model(), self.2.model(), self.3.model(), self.4.model(), self.5.model(), self.6.model())
    }

    open spec fn body(v: Self::Model) -> Seq<u8> {
        T0::body(v.0) + T1::body(v.1) + T2::body(v.2) + T3::body(v.3) + T4::body(v.4) + T5::body(v.5) + T6::body(v.6)
    }

    open spec fn parse(bytes: Seq<u8>) -> Parsed<Self::Model> {
        let p1 = parse_then::<_, T1>(T0::parse(bytes), bytes);
        let p2 = parse_then::<_, T2>(p1, bytes);
        let p3 = parse_then::<_, T3>(p2, bytes);
        let p4 = parse_then::<_, T4>(p3, bytes);
        let p5 = parse_then::<_, T5>(p4, bytes);
        let p6 = parse_then::<_, T6>(p5, bytes);
        match p6 {
            Ok((((((((v0, v1), v2), v3), v4), v5), v6), k)) => Ok(((v0, v1, v2, v3, v4, v5, v6), k)),
            Err(e) => Err(e),
        }
    }

    open spec fn sound() -> bool {
        T0::sound() && T1::sound() && T2::sound() && T3::sound() && T4::sound() && T5::sound() && T6::sound()
    }

    open spec fn representable(v: Self::Model) -> bool {
        T0::representable(v.0) && T1::representable(v.1) && T2::representable(v.2) && T3::representable(v.3) && T4::representable(v.4) && T5::representable(v.5) && T6::representable(v.6)
    }

    fn encode_body(&self, out: &mut Vec<u8>) {
        let ghost start = out@;
        self.0.encode_body(out);
        self.1.encode_body(out);
        self.2.encode_body(out);
        self.3.encode_body(out);
        self.4.encode_body(out);
        self.5.encode_body(out);
        self.6.encode_body(out);
        assert(out@ =~= start + Self::body(self.model()));
    }

    fn decode_body(cursor: &mut Cursor<'_>) -> (r: Result<Self, CodecError>) {
        let ghost start = cursor@;
        let v0 = match T0::decode_body(cursor) {
            Ok(v) => v,
            Err(e) => return Err(e),
        };
        proof {
            T0::law_canonical(start.rest());
        }
        let ghost at1 = cursor@.position - start.position;
        assert(cursor@.rest() =~= start.rest().skip(cursor@.position - start.position));
        let v1 = match T1::decode_body(cursor) {
            Ok(v) => v,
            Err(e) => return Err(e),
        };
        proof {
            T1::law_canonical(start.rest().skip(at1));
        }
        let ghost at2 = cursor@.position - start.position;
        assert(cursor@.rest() =~= start.rest().skip(cursor@.position - start.position));
        let v2 = match T2::decode_body(cursor) {
            Ok(v) => v,
            Err(e) => return Err(e),
        };
        proof {
            T2::law_canonical(start.rest().skip(at2));
        }
        let ghost at3 = cursor@.position - start.position;
        assert(cursor@.rest() =~= start.rest().skip(cursor@.position - start.position));
        let v3 = match T3::decode_body(cursor) {
            Ok(v) => v,
            Err(e) => return Err(e),
        };
        proof {
            T3::law_canonical(start.rest().skip(at3));
        }
        let ghost at4 = cursor@.position - start.position;
        assert(cursor@.rest() =~= start.rest().skip(cursor@.position - start.position));
        let v4 = match T4::decode_body(cursor) {
            Ok(v) => v,
            Err(e) => return Err(e),
        };
        proof {
            T4::law_canonical(start.rest().skip(at4));
        }
        let ghost at5 = cursor@.position - start.position;
        assert(cursor@.rest() =~= start.rest().skip(cursor@.position - start.position));
        let v5 = match T5::decode_body(cursor) {
            Ok(v) => v,
            Err(e) => return Err(e),
        };
        proof {
            T5::law_canonical(start.rest().skip(at5));
        }
        let ghost at6 = cursor@.position - start.position;
        assert(cursor@.rest() =~= start.rest().skip(cursor@.position - start.position));
        let v6 = match T6::decode_body(cursor) {
            Ok(v) => v,
            Err(e) => return Err(e),
        };
        Ok((v0, v1, v2, v3, v4, v5, v6))
    }

    proof fn law_round_trip(v: Self::Model, rest: Seq<u8>) {
        let bytes = Self::body(v) + rest;
        let r7 = rest;
        let r6 = T6::body(v.6) + r7;
        let r5 = T5::body(v.5) + r6;
        let r4 = T4::body(v.4) + r5;
        let r3 = T3::body(v.3) + r4;
        let r2 = T2::body(v.2) + r3;
        let r1 = T1::body(v.1) + r2;
        assert((T0::body(v.0) + T1::body(v.1) + T2::body(v.2) + T3::body(v.3) + T4::body(v.4) + T5::body(v.5) + T6::body(v.6)) + r7 =~= (T0::body(v.0) + T1::body(v.1) + T2::body(v.2) + T3::body(v.3) + T4::body(v.4) + T5::body(v.5)) + r6);
        assert((T0::body(v.0) + T1::body(v.1) + T2::body(v.2) + T3::body(v.3) + T4::body(v.4) + T5::body(v.5)) + r6 =~= (T0::body(v.0) + T1::body(v.1) + T2::body(v.2) + T3::body(v.3) + T4::body(v.4)) + r5);
        assert((T0::body(v.0) + T1::body(v.1) + T2::body(v.2) + T3::body(v.3) + T4::body(v.4)) + r5 =~= (T0::body(v.0) + T1::body(v.1) + T2::body(v.2) + T3::body(v.3)) + r4);
        assert((T0::body(v.0) + T1::body(v.1) + T2::body(v.2) + T3::body(v.3)) + r4 =~= (T0::body(v.0) + T1::body(v.1) + T2::body(v.2)) + r3);
        assert((T0::body(v.0) + T1::body(v.1) + T2::body(v.2)) + r3 =~= (T0::body(v.0) + T1::body(v.1)) + r2);
        assert((T0::body(v.0) + T1::body(v.1)) + r2 =~= (T0::body(v.0)) + r1);
        T0::law_round_trip(v.0, r1);
        let p0 = T0::parse(bytes);
        let p1 = parse_then::<_, T1>(p0, bytes);
        lemma_then_round_trip::<_, T1>(p0, v.0, T0::body(v.0), v.1, r2, bytes);
        let p2 = parse_then::<_, T2>(p1, bytes);
        lemma_then_round_trip::<_, T2>(p1, (v.0, v.1), T0::body(v.0) + T1::body(v.1), v.2, r3, bytes);
        let p3 = parse_then::<_, T3>(p2, bytes);
        lemma_then_round_trip::<_, T3>(p2, ((v.0, v.1), v.2), T0::body(v.0) + T1::body(v.1) + T2::body(v.2), v.3, r4, bytes);
        let p4 = parse_then::<_, T4>(p3, bytes);
        lemma_then_round_trip::<_, T4>(p3, (((v.0, v.1), v.2), v.3), T0::body(v.0) + T1::body(v.1) + T2::body(v.2) + T3::body(v.3), v.4, r5, bytes);
        let p5 = parse_then::<_, T5>(p4, bytes);
        lemma_then_round_trip::<_, T5>(p4, ((((v.0, v.1), v.2), v.3), v.4), T0::body(v.0) + T1::body(v.1) + T2::body(v.2) + T3::body(v.3) + T4::body(v.4), v.5, r6, bytes);
        let p6 = parse_then::<_, T6>(p5, bytes);
        lemma_then_round_trip::<_, T6>(p5, (((((v.0, v.1), v.2), v.3), v.4), v.5), T0::body(v.0) + T1::body(v.1) + T2::body(v.2) + T3::body(v.3) + T4::body(v.4) + T5::body(v.5), v.6, r7, bytes);
    }

    proof fn law_canonical(bytes: Seq<u8>) {
        let p0 = T0::parse(bytes);
        T0::law_canonical(bytes);
        let p1 = parse_then::<_, T1>(p0, bytes);
        lemma_then_canonical::<_, T1>(p0, bytes);
        let p2 = parse_then::<_, T2>(p1, bytes);
        lemma_then_canonical::<_, T2>(p1, bytes);
        let p3 = parse_then::<_, T3>(p2, bytes);
        lemma_then_canonical::<_, T3>(p2, bytes);
        let p4 = parse_then::<_, T4>(p3, bytes);
        lemma_then_canonical::<_, T4>(p3, bytes);
        let p5 = parse_then::<_, T5>(p4, bytes);
        lemma_then_canonical::<_, T5>(p4, bytes);
        let p6 = parse_then::<_, T6>(p5, bytes);
        lemma_then_canonical::<_, T6>(p5, bytes);
    }
}

impl<T0: Codec, T1: Codec, T2: Codec, T3: Codec, T4: Codec, T5: Codec, T6: Codec, T7: Codec> Codec for (T0, T1, T2, T3, T4, T5, T6, T7) {
    type Model = (T0::Model, T1::Model, T2::Model, T3::Model, T4::Model, T5::Model, T6::Model, T7::Model);

    open spec fn model(&self) -> Self::Model {
        (self.0.model(), self.1.model(), self.2.model(), self.3.model(), self.4.model(), self.5.model(), self.6.model(), self.7.model())
    }

    open spec fn body(v: Self::Model) -> Seq<u8> {
        T0::body(v.0) + T1::body(v.1) + T2::body(v.2) + T3::body(v.3) + T4::body(v.4) + T5::body(v.5) + T6::body(v.6) + T7::body(v.7)
    }

    open spec fn parse(bytes: Seq<u8>) -> Parsed<Self::Model> {
        let p1 = parse_then::<_, T1>(T0::parse(bytes), bytes);
        let p2 = parse_then::<_, T2>(p1, bytes);
        let p3 = parse_then::<_, T3>(p2, bytes);
        let p4 = parse_then::<_, T4>(p3, bytes);
        let p5 = parse_then::<_, T5>(p4, bytes);
        let p6 = parse_then::<_, T6>(p5, bytes);
        let p7 = parse_then::<_, T7>(p6, bytes);
        match p7 {
            Ok(((((((((v0, v1), v2), v3), v4), v5), v6), v7), k)) => Ok(((v0, v1, v2, v3, v4, v5, v6, v7), k)),
            Err(e) => Err(e),
        }
    }

    open spec fn sound() -> bool {
        T0::sound() && T1::sound() && T2::sound() && T3::sound() && T4::sound() && T5::sound() && T6::sound() && T7::sound()
    }

    open spec fn representable(v: Self::Model) -> bool {
        T0::representable(v.0) && T1::representable(v.1) && T2::representable(v.2) && T3::representable(v.3) && T4::representable(v.4) && T5::representable(v.5) && T6::representable(v.6) && T7::representable(v.7)
    }

    fn encode_body(&self, out: &mut Vec<u8>) {
        let ghost start = out@;
        self.0.encode_body(out);
        self.1.encode_body(out);
        self.2.encode_body(out);
        self.3.encode_body(out);
        self.4.encode_body(out);
        self.5.encode_body(out);
        self.6.encode_body(out);
        self.7.encode_body(out);
        assert(out@ =~= start + Self::body(self.model()));
    }

    fn decode_body(cursor: &mut Cursor<'_>) -> (r: Result<Self, CodecError>) {
        let ghost start = cursor@;
        let v0 = match T0::decode_body(cursor) {
            Ok(v) => v,
            Err(e) => return Err(e),
        };
        proof {
            T0::law_canonical(start.rest());
        }
        let ghost at1 = cursor@.position - start.position;
        assert(cursor@.rest() =~= start.rest().skip(cursor@.position - start.position));
        let v1 = match T1::decode_body(cursor) {
            Ok(v) => v,
            Err(e) => return Err(e),
        };
        proof {
            T1::law_canonical(start.rest().skip(at1));
        }
        let ghost at2 = cursor@.position - start.position;
        assert(cursor@.rest() =~= start.rest().skip(cursor@.position - start.position));
        let v2 = match T2::decode_body(cursor) {
            Ok(v) => v,
            Err(e) => return Err(e),
        };
        proof {
            T2::law_canonical(start.rest().skip(at2));
        }
        let ghost at3 = cursor@.position - start.position;
        assert(cursor@.rest() =~= start.rest().skip(cursor@.position - start.position));
        let v3 = match T3::decode_body(cursor) {
            Ok(v) => v,
            Err(e) => return Err(e),
        };
        proof {
            T3::law_canonical(start.rest().skip(at3));
        }
        let ghost at4 = cursor@.position - start.position;
        assert(cursor@.rest() =~= start.rest().skip(cursor@.position - start.position));
        let v4 = match T4::decode_body(cursor) {
            Ok(v) => v,
            Err(e) => return Err(e),
        };
        proof {
            T4::law_canonical(start.rest().skip(at4));
        }
        let ghost at5 = cursor@.position - start.position;
        assert(cursor@.rest() =~= start.rest().skip(cursor@.position - start.position));
        let v5 = match T5::decode_body(cursor) {
            Ok(v) => v,
            Err(e) => return Err(e),
        };
        proof {
            T5::law_canonical(start.rest().skip(at5));
        }
        let ghost at6 = cursor@.position - start.position;
        assert(cursor@.rest() =~= start.rest().skip(cursor@.position - start.position));
        let v6 = match T6::decode_body(cursor) {
            Ok(v) => v,
            Err(e) => return Err(e),
        };
        proof {
            T6::law_canonical(start.rest().skip(at6));
        }
        let ghost at7 = cursor@.position - start.position;
        assert(cursor@.rest() =~= start.rest().skip(cursor@.position - start.position));
        let v7 = match T7::decode_body(cursor) {
            Ok(v) => v,
            Err(e) => return Err(e),
        };
        Ok((v0, v1, v2, v3, v4, v5, v6, v7))
    }

    proof fn law_round_trip(v: Self::Model, rest: Seq<u8>) {
        let bytes = Self::body(v) + rest;
        let r8 = rest;
        let r7 = T7::body(v.7) + r8;
        let r6 = T6::body(v.6) + r7;
        let r5 = T5::body(v.5) + r6;
        let r4 = T4::body(v.4) + r5;
        let r3 = T3::body(v.3) + r4;
        let r2 = T2::body(v.2) + r3;
        let r1 = T1::body(v.1) + r2;
        assert((T0::body(v.0) + T1::body(v.1) + T2::body(v.2) + T3::body(v.3) + T4::body(v.4) + T5::body(v.5) + T6::body(v.6) + T7::body(v.7)) + r8 =~= (T0::body(v.0) + T1::body(v.1) + T2::body(v.2) + T3::body(v.3) + T4::body(v.4) + T5::body(v.5) + T6::body(v.6)) + r7);
        assert((T0::body(v.0) + T1::body(v.1) + T2::body(v.2) + T3::body(v.3) + T4::body(v.4) + T5::body(v.5) + T6::body(v.6)) + r7 =~= (T0::body(v.0) + T1::body(v.1) + T2::body(v.2) + T3::body(v.3) + T4::body(v.4) + T5::body(v.5)) + r6);
        assert((T0::body(v.0) + T1::body(v.1) + T2::body(v.2) + T3::body(v.3) + T4::body(v.4) + T5::body(v.5)) + r6 =~= (T0::body(v.0) + T1::body(v.1) + T2::body(v.2) + T3::body(v.3) + T4::body(v.4)) + r5);
        assert((T0::body(v.0) + T1::body(v.1) + T2::body(v.2) + T3::body(v.3) + T4::body(v.4)) + r5 =~= (T0::body(v.0) + T1::body(v.1) + T2::body(v.2) + T3::body(v.3)) + r4);
        assert((T0::body(v.0) + T1::body(v.1) + T2::body(v.2) + T3::body(v.3)) + r4 =~= (T0::body(v.0) + T1::body(v.1) + T2::body(v.2)) + r3);
        assert((T0::body(v.0) + T1::body(v.1) + T2::body(v.2)) + r3 =~= (T0::body(v.0) + T1::body(v.1)) + r2);
        assert((T0::body(v.0) + T1::body(v.1)) + r2 =~= (T0::body(v.0)) + r1);
        T0::law_round_trip(v.0, r1);
        let p0 = T0::parse(bytes);
        let p1 = parse_then::<_, T1>(p0, bytes);
        lemma_then_round_trip::<_, T1>(p0, v.0, T0::body(v.0), v.1, r2, bytes);
        let p2 = parse_then::<_, T2>(p1, bytes);
        lemma_then_round_trip::<_, T2>(p1, (v.0, v.1), T0::body(v.0) + T1::body(v.1), v.2, r3, bytes);
        let p3 = parse_then::<_, T3>(p2, bytes);
        lemma_then_round_trip::<_, T3>(p2, ((v.0, v.1), v.2), T0::body(v.0) + T1::body(v.1) + T2::body(v.2), v.3, r4, bytes);
        let p4 = parse_then::<_, T4>(p3, bytes);
        lemma_then_round_trip::<_, T4>(p3, (((v.0, v.1), v.2), v.3), T0::body(v.0) + T1::body(v.1) + T2::body(v.2) + T3::body(v.3), v.4, r5, bytes);
        let p5 = parse_then::<_, T5>(p4, bytes);
        lemma_then_round_trip::<_, T5>(p4, ((((v.0, v.1), v.2), v.3), v.4), T0::body(v.0) + T1::body(v.1) + T2::body(v.2) + T3::body(v.3) + T4::body(v.4), v.5, r6, bytes);
        let p6 = parse_then::<_, T6>(p5, bytes);
        lemma_then_round_trip::<_, T6>(p5, (((((v.0, v.1), v.2), v.3), v.4), v.5), T0::body(v.0) + T1::body(v.1) + T2::body(v.2) + T3::body(v.3) + T4::body(v.4) + T5::body(v.5), v.6, r7, bytes);
        let p7 = parse_then::<_, T7>(p6, bytes);
        lemma_then_round_trip::<_, T7>(p6, ((((((v.0, v.1), v.2), v.3), v.4), v.5), v.6), T0::body(v.0) + T1::body(v.1) + T2::body(v.2) + T3::body(v.3) + T4::body(v.4) + T5::body(v.5) + T6::body(v.6), v.7, r8, bytes);
    }

    proof fn law_canonical(bytes: Seq<u8>) {
        let p0 = T0::parse(bytes);
        T0::law_canonical(bytes);
        let p1 = parse_then::<_, T1>(p0, bytes);
        lemma_then_canonical::<_, T1>(p0, bytes);
        let p2 = parse_then::<_, T2>(p1, bytes);
        lemma_then_canonical::<_, T2>(p1, bytes);
        let p3 = parse_then::<_, T3>(p2, bytes);
        lemma_then_canonical::<_, T3>(p2, bytes);
        let p4 = parse_then::<_, T4>(p3, bytes);
        lemma_then_canonical::<_, T4>(p3, bytes);
        let p5 = parse_then::<_, T5>(p4, bytes);
        lemma_then_canonical::<_, T5>(p4, bytes);
        let p6 = parse_then::<_, T6>(p5, bytes);
        lemma_then_canonical::<_, T6>(p5, bytes);
        let p7 = parse_then::<_, T7>(p6, bytes);
        lemma_then_canonical::<_, T7>(p6, bytes);
    }
}

} // verus!
