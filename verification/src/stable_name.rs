//! Author-declared stable names for task and payload types.

use crate::sealed::SealedInputs;
use vstd::prelude::*;
use vstd::utf8::*;

verus! {

/// The reserved stable name of the unit type.
pub const UNIT_STABLE_NAME: &'static str = "()";

/// A type with an author-declared name that does not change between toolchains.
pub trait StableName {
    /// The name.
    const STABLE_NAME: &'static str;
}

impl StableName for () {
    const STABLE_NAME: &'static str = UNIT_STABLE_NAME;
}

/// Whether a byte may stand in a stable name: an ASCII letter or digit, or one of
/// `_`, `-`, `.` and `:`.
pub open spec fn stable_name_byte(b: u8) -> bool {
    ||| 0x30 <= b <= 0x39
    ||| 0x41 <= b <= 0x5a
    ||| 0x61 <= b <= 0x7a
    ||| b == 0x5f
    ||| b == 0x2d
    ||| b == 0x2e
    ||| b == 0x3a
}

/// Whether a text is a well-formed stable name: not empty, and made only of ASCII
/// letters, digits and `_ - . :`.
pub open spec fn well_formed_name(name: Seq<char>) -> bool {
    &&& name.len() > 0
    &&& forall|i: int|
        0 <= i < encode_utf8(name).len() ==> stable_name_byte(#[trigger] encode_utf8(name)[i])
}

/// Whether a character may stand in a stable name.
pub open spec fn stable_name_char(c: char) -> bool {
    ||| 'a' <= c <= 'z'
    ||| 'A' <= c <= 'Z'
    ||| '0' <= c <= '9'
    ||| c == '_'
    ||| c == '-'
    ||| c == '.'
    ||| c == ':'
}

proof fn lemma_char_number(c: char)
    ensures
        c as u32 as int == c as int,
{
}

proof fn lemma_bytes_and_chars(name: Seq<char>)
    ensures
        (forall|i: int| 0 <= i < encode_utf8(name).len() ==> stable_name_byte(#[trigger] encode_utf8(name)[i])) <==> (
        forall|i: int| 0 <= i < name.len() ==> stable_name_char(#[trigger] name[i])),
    decreases name.len(),
{
    if name.len() > 0 {
        let bytes = encode_utf8(name);
        let rest = name.drop_first();
        let first = encode_scalar(name[0] as u32);
        let b = bytes[0];
        lemma_bytes_and_chars(rest);
        encode_utf8_first_scalar(name);
        assert(first.len() >= 1 && b == first[0]);
        assert(b <= 0x7f ==> b & 0x7f == b) by (bit_vector);
        assert(b <= 0x7f ==> name[0] as u32 == b && first.len() == 1);
        if forall|i: int| 0 <= i < bytes.len() ==> stable_name_byte(#[trigger] bytes[i]) {
            assert(stable_name_byte(bytes[0]));
            lemma_char_number(name[0]);
            assert(stable_name_char(name[0]));
            assert forall|i: int| 0 <= i < encode_utf8(rest).len() implies stable_name_byte(
                #[trigger] encode_utf8(rest)[i],
            ) by {
                assert(stable_name_byte(bytes[i + 1]));
            }
            assert forall|i: int| 0 <= i < name.len() implies stable_name_char(#[trigger] name[i]) by {
                if i > 0 {
                    assert(stable_name_char(rest[i - 1]));
                }
            }
        }
        if forall|i: int| 0 <= i < name.len() ==> stable_name_char(#[trigger] name[i]) {
            assert(stable_name_char(name[0]));
            assert forall|i: int| 0 <= i < rest.len() implies stable_name_char(#[trigger] rest[i]) by {
                assert(stable_name_char(name[i + 1]));
            }
            assert(has_width_1_encoding(name[0] as u32));
            assert(length_of_first_scalar(bytes) == 1);
            assert(is_leading_byte_width_1(b));
            assert forall|i: int| 0 <= i < bytes.len() implies stable_name_byte(#[trigger] bytes[i]) by {
                if i > 0 {
                    assert(stable_name_byte(encode_utf8(rest)[i - 1]));
                }
            }
        }
    }
}

/// A stable name is well formed exactly where it is not empty and made only of letters and
/// digits of ASCII, underscores, dashes, dots and colons.
pub proof fn law_a_stable_name_is_plain(name: Seq<char>)
    ensures
        well_formed_name(name) <==> name.len() > 0 && forall|i: int|
            0 <= i < name.len() ==> {
                let c = #[trigger] name[i];
                ('a' <= c <= 'z') || ('A' <= c <= 'Z') || ('0' <= c <= '9') || c == '_' || c == '-' || c == '.' || c
                    == ':'
            },
{
    lemma_bytes_and_chars(name);
    if forall|i: int| 0 <= i < name.len() ==> stable_name_char(#[trigger] name[i]) {
        assert forall|i: int| 0 <= i < name.len() implies {
            let c = #[trigger] name[i];
            ('a' <= c <= 'z') || ('A' <= c <= 'Z') || ('0' <= c <= '9') || c == '_' || c == '-' || c == '.' || c == ':'
        } by {
            assert(stable_name_char(name[i]));
        }
    }
}

/// Whether `name` is a well-formed stable name.
#[must_use]
pub fn is_well_formed(name: &str) -> (r: bool)
    ensures
        r == well_formed_name(name@),
{
    if name.is_empty() {
        return false;
    }
    let bytes: &[u8] = name.as_bytes();
    let mut i: usize = 0;
    while i < bytes.len()
        invariant
            i <= bytes.len(),
            bytes@ == encode_utf8(name@),
            name@.len() > 0,
            forall|j: int| 0 <= j < i ==> stable_name_byte(#[trigger] bytes@[j]),
        decreases bytes.len() - i,
    {
        let b: u8 = bytes[i];
        let ok = (b >= 0x30 && b <= 0x39) || (b >= 0x41 && b <= 0x5a) || (b >= 0x61 && b <= 0x7a) || b == 0x5f
            || b == 0x2d || b == 0x2e || b == 0x3a;
        if !ok {
            assert(!stable_name_byte(encode_utf8(name@)[i as int]));
            return false;
        }
        i = i + 1;
    }
    true
}

/// The stable names of a task's declared input types, in declaration order.
pub trait StableInputNames: SealedInputs {
    /// The names, one per bound input.
    spec fn names() -> Seq<Seq<char>>;

    /// Lists the names, one per bound input.
    fn stable_input_names() -> (r: Vec<&'static str>)
        ensures
            r@.map_values(|s: &'static str| s@) == Self::names(),
    ;
}

impl<T: StableName> SealedInputs for T {

}

impl<T: StableName> StableInputNames for T {
    open spec fn names() -> Seq<Seq<char>> {
        seq![T::STABLE_NAME@]
    }

    fn stable_input_names() -> (r: Vec<&'static str>) {
        let r: Vec<&'static str> = vec![T::STABLE_NAME];
        assert(r@.map_values(|s: &'static str| s@) =~= Self::names());
        r
    }
}

impl<I0: StableName, I1: StableName> SealedInputs for (I0, I1) {

}

impl<I0: StableName, I1: StableName> StableInputNames for (I0, I1) {
    open spec fn names() -> Seq<Seq<char>> {
        seq![I0::STABLE_NAME@, I1::STABLE_NAME@]
    }

    fn stable_input_names() -> (r: Vec<&'static str>) {
        let r: Vec<&'static str> = vec![I0::STABLE_NAME, I1::STABLE_NAME];
        assert(r@.map_values(|s: &'static str| s@) =~= Self::names());
        r
    }
}

impl<I0: StableName, I1: StableName, I2: StableName> SealedInputs for (I0, I1, I2) {

}

impl<I0: StableName, I1: StableName, I2: StableName> StableInputNames for (I0, I1, I2) {
    open spec fn names() -> Seq<Seq<char>> {
        seq![I0::STABLE_NAME@, I1::STABLE_NAME@, I2::STABLE_NAME@]
    }

    fn stable_input_names() -> (r: Vec<&'static str>) {
        let r: Vec<&'static str> = vec![I0::STABLE_NAME, I1::STABLE_NAME, I2::STABLE_NAME];
        assert(r@.map_values(|s: &'static str| s@) =~= Self::names());
        r
    }
}

impl<I0: StableName, I1: StableName, I2: StableName, I3: StableName> SealedInputs for (I0, I1, I2, I3) {

}

impl<I0: StableName, I1: StableName, I2: StableName, I3: StableName> StableInputNames for (I0, I1, I2, I3) {
    open spec fn names() -> Seq<Seq<char>> {
        seq![I0::STABLE_NAME@, I1::STABLE_NAME@, I2::STABLE_NAME@, I3::STABLE_NAME@]
    }

    fn stable_input_names() -> (r: Vec<&'static str>) {
        let r: Vec<&'static str> = vec![I0::STABLE_NAME, I1::STABLE_NAME, I2::STABLE_NAME, I3::STABLE_NAME];
        assert(r@.map_values(|s: &'static str| s@) =~= Self::names());
        r
    }
}

impl<I0: StableName, I1: StableName, I2: StableName, I3: StableName, I4: StableName> SealedInputs for (I0, I1, I2, I3, I4) {

}

impl<I0: StableName, I1: StableName, I2: StableName, I3: StableName, I4: StableName> StableInputNames for (I0, I1, I2, I3, I4) {
    open spec fn names() -> Seq<Seq<char>> {
        seq![I0::STABLE_NAME@, I1::STABLE_NAME@, I2::STABLE_NAME@, I3::STABLE_NAME@, I4::STABLE_NAME@]
    }

    fn stable_input_names() -> (r: Vec<&'static str>) {
        let r: Vec<&'static str> = vec![I0::STABLE_NAME, I1::STABLE_NAME, I2::STABLE_NAME, I3::STABLE_NAME, I4::STABLE_NAME];
        assert(r@.map_values(|s: &'static str| s@) =~= Self::names());
        r
    }
}

impl<I0: StableName, I1: StableName, I2: StableName, I3: StableName, I4: StableName, I5: StableName> SealedInputs for (I0, I1, I2, I3, I4, I5) {

}

impl<I0: StableName, I1: StableName, I2: StableName, I3: StableName, I4: StableName, I5: StableName> StableInputNames for (I0, I1, I2, I3, I4, I5) {
    open spec fn names() -> Seq<Seq<char>> {
        seq![I0::STABLE_NAME@, I1::STABLE_NAME@, I2::STABLE_NAME@, I3::STABLE_NAME@, I4::STABLE_NAME@, I5::STABLE_NAME@]
    }

    fn stable_input_names() -> (r: Vec<&'static str>) {
        let r: Vec<&'static str> = vec![I0::STABLE_NAME, I1::STABLE_NAME, I2::STABLE_NAME, I3::STABLE_NAME, I4::STABLE_NAME, I5::STABLE_NAME];
        assert(r@.map_values(|s: &'static str| s@) =~= Self::names());
        r
    }
}

impl<I0: StableName, I1: StableName, I2: StableName, I3: StableName, I4: StableName, I5: StableName, I6: StableName> SealedInputs for (I0, I1, I2, I3, I4, I5, I6) {

}

impl<I0: StableName, I1: StableName, I2: StableName, I3: StableName, I4: StableName, I5: StableName, I6: StableName> StableInputNames for (I0, I1, I2, I3, I4, I5, I6) {
    open spec fn names() -> Seq<Seq<char>> {
        seq![I0::STABLE_NAME@, I1::STABLE_NAME@, I2::STABLE_NAME@, I3::STABLE_NAME@, I4::STABLE_NAME@, I5::STABLE_NAME@, I6::STABLE_NAME@]
    }

    fn stable_input_names() -> (r: Vec<&'static str>) {
        let r: Vec<&'static str> = vec![I0::STABLE_NAME, I1::STABLE_NAME, I2::STABLE_NAME, I3::STABLE_NAME, I4::STABLE_NAME, I5::STABLE_NAME, I6::STABLE_NAME];
        assert(r@.map_values(|s: &'static str| s@) =~= Self::names());
        r
    }
}

impl<I0: StableName, I1: StableName, I2: StableName, I3: StableName, I4: StableName, I5: StableName, I6: StableName, I7: StableName> SealedInputs for (I0, I1, I2, I3, I4, I5, I6, I7) {

}

impl<I0: StableName, I1: StableName, I2: StableName, I3: StableName, I4: StableName, I5: StableName, I6: StableName, I7: StableName> StableInputNames for (I0, I1, I2, I3, I4, I5, I6, I7) {
    open spec fn names() -> Seq<Seq<char>> {
        seq![I0::STABLE_NAME@, I1::STABLE_NAME@, I2::STABLE_NAME@, I3::STABLE_NAME@, I4::STABLE_NAME@, I5::STABLE_NAME@, I6::STABLE_NAME@, I7::STABLE_NAME@]
    }

    fn stable_input_names() -> (r: Vec<&'static str>) {
        let r: Vec<&'static str> = vec![I0::STABLE_NAME, I1::STABLE_NAME, I2::STABLE_NAME, I3::STABLE_NAME, I4::STABLE_NAME, I5::STABLE_NAME, I6::STABLE_NAME, I7::STABLE_NAME];
        assert(r@.map_values(|s: &'static str| s@) =~= Self::names());
        r
    }
}

/// The names of inputs are those of their types, one by one, in order; the unit type has the
/// reserved one.
pub proof fn law_input_names_are_listed_in_order<
    I0: StableName,
    I1: StableName,
    I2: StableName,
    I3: StableName,
    I4: StableName,
    I5: StableName,
    I6: StableName,
    I7: StableName,
>()
    ensures
        <I0 as StableInputNames>::names() == seq![I0::STABLE_NAME@],
        <(I0, I1) as StableInputNames>::names() == seq![I0::STABLE_NAME@, I1::STABLE_NAME@],
        <(I0, I1, I2) as StableInputNames>::names() == seq![I0::STABLE_NAME@, I1::STABLE_NAME@, I2::STABLE_NAME@],
        <(I0, I1, I2, I3) as StableInputNames>::names() == seq![
            I0::STABLE_NAME@,
            I1::STABLE_NAME@,
            I2::STABLE_NAME@,
            I3::STABLE_NAME@,
        ],
        <(I0, I1, I2, I3, I4) as StableInputNames>::names() == seq![
            I0::STABLE_NAME@,
            I1::STABLE_NAME@,
            I2::STABLE_NAME@,
            I3::STABLE_NAME@,
            I4::STABLE_NAME@,
        ],
        <(I0, I1, I2, I3, I4, I5) as StableInputNames>::names() == seq![
            I0::STABLE_NAME@,
            I1::STABLE_NAME@,
            I2::STABLE_NAME@,
            I3::STABLE_NAME@,
            I4::STABLE_NAME@,
            I5::STABLE_NAME@,
        ],
        <(I0, I1, I2, I3, I4, I5, I6) as StableInputNames>::names() == seq![
            I0::STABLE_NAME@,
            I1::STABLE_NAME@,
            I2::STABLE_NAME@,
            I3::STABLE_NAME@,
            I4::STABLE_NAME@,
            I5::STABLE_NAME@,
            I6::STABLE_NAME@,
        ],
        <(I0, I1, I2, I3, I4, I5, I6, I7) as StableInputNames>::names() == seq![
            I0::STABLE_NAME@,
            I1::STABLE_NAME@,
            I2::STABLE_NAME@,
            I3::STABLE_NAME@,
            I4::STABLE_NAME@,
            I5::STABLE_NAME@,
            I6::STABLE_NAME@,
            I7::STABLE_NAME@,
        ],
        <() as StableName>::STABLE_NAME@ == "()"@,
{
}

} // verus!
