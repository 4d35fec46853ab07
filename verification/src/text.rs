//! Text helpers shared by the rest of the crate: the byte order on names, the
//! decimal form of a number, and the concatenations that messages are made of.

use vstd::prelude::*;
use vstd::utf8::*;

verus! {

/// `a` precedes `b` in byte-lexicographic order and `k` is where they part: the
/// first `k` bytes agree, and then either `a` ends or its byte is smaller.
pub open spec fn parts_at(a: Seq<u8>, b: Seq<u8>, k: int) -> bool {
    &&& 0 <= k <= a.len()
    &&& k < b.len()
    &&& forall|i: int| 0 <= i < k ==> a[i] == b[i]
    &&& (k == a.len() || a[k] < b[k])
}

/// Byte-lexicographic order.
pub open spec fn bytes_lt(a: Seq<u8>, b: Seq<u8>) -> bool {
    exists|k: int| parts_at(a, b, k)
}

/// The order on names: byte-lexicographic over their UTF-8 encoding.
pub open spec fn name_lt(a: Seq<char>, b: Seq<char>) -> bool {
    bytes_lt(encode_utf8(a), encode_utf8(b))
}

/// Two names with one encoding are one name.
pub proof fn lemma_encoding_injective(a: Seq<char>, b: Seq<char>)
    requires
        encode_utf8(a) == encode_utf8(b),
    ensures
        a == b,
{
    encode_utf8_decode_utf8(a);
    encode_utf8_decode_utf8(b);
}

/// No byte string precedes itself, and no two precede each other.
pub proof fn lemma_bytes_lt_asymmetric(a: Seq<u8>, b: Seq<u8>)
    requires
        bytes_lt(a, b),
    ensures
        !bytes_lt(b, a),
        a != b,
{
    let k = choose|k: int| parts_at(a, b, k);
    if bytes_lt(b, a) {
        let j = choose|j: int| parts_at(b, a, j);
        if j < k {
            assert(a[j] == b[j]);
        } else if k < j {
            assert(b[k] == a[k]);
        }
    }
}

/// The byte order is transitive.
pub proof fn lemma_bytes_lt_transitive(a: Seq<u8>, b: Seq<u8>, c: Seq<u8>)
    requires
        bytes_lt(a, b),
        bytes_lt(b, c),
    ensures
        bytes_lt(a, c),
{
    let k = choose|k: int| parts_at(a, b, k);
    let j = choose|j: int| parts_at(b, c, j);
    let m = if k < j { k } else { j };
    assert(parts_at(a, c, m)) by {
        assert forall|i: int| 0 <= i < m implies a[i] == c[i] by {
            assert(a[i] == b[i]);
            assert(b[i] == c[i]);
        }
    }
}

/// No name precedes itself, and no two names precede each other.
pub proof fn lemma_name_lt_asymmetric(a: Seq<char>, b: Seq<char>)
    requires
        name_lt(a, b),
    ensures
        !name_lt(b, a),
        a != b,
{
    lemma_bytes_lt_asymmetric(encode_utf8(a), encode_utf8(b));
}

/// The order on names is transitive.
pub proof fn lemma_name_lt_transitive(a: Seq<char>, b: Seq<char>, c: Seq<char>)
    requires
        name_lt(a, b),
        name_lt(b, c),
    ensures
        name_lt(a, c),
{
    lemma_bytes_lt_transitive(encode_utf8(a), encode_utf8(b), encode_utf8(c));
}

/// Of two different names one precedes the other.
pub proof fn lemma_name_lt_total(a: Seq<char>, b: Seq<char>)
    ensures
        a == b || name_lt(a, b) || name_lt(b, a),
{
    let x = encode_utf8(a);
    let y = encode_utf8(b);
    if x == y {
        lemma_encoding_injective(a, b);
    } else {
        let k = lemma_common_prefix(x, y, 0);
        assert(parts_at(x, y, k) || parts_at(y, x, k));
    }
}

proof fn lemma_common_prefix(x: Seq<u8>, y: Seq<u8>, from: int) -> (k: int)
    requires
        x != y,
        0 <= from <= x.len(),
        from <= y.len(),
        forall|i: int| 0 <= i < from ==> x[i] == y[i],
    ensures
        0 <= k <= x.len(),
        k <= y.len(),
        forall|i: int| 0 <= i < k ==> x[i] == y[i],
        (k == x.len() && k < y.len()) || (k < x.len() && k == y.len()) || (k < x.len() && k < y.len() && x[k] != y[k]),
    decreases x.len() - from,
{
    if from == x.len() || from == y.len() {
        if x.len() == y.len() {
            assert(x =~= y);
        }
        from
    } else if x[from] != y[from] {
        from
    } else {
        lemma_common_prefix(x, y, from + 1)
    }
}

/// How two names stand to each other in the order on names.
#[derive(Debug, Clone, Copy, PartialEq, Eq, Structural)]
pub enum Placement {
    /// The first name precedes the second.
    Before,
    /// The two names are the same.
    Same,
    /// The second name precedes the first.
    After,
}

/// Places `a` against `b` in the order on names.
pub fn place(a: &str, b: &str) -> (r: Placement)
    ensures
        r == Placement::Before <==> name_lt(a@, b@),
        r == Placement::Same <==> a@ == b@,
        r == Placement::After <==> name_lt(b@, a@),
{
    let x: &[u8] = a.as_bytes();
    let y: &[u8] = b.as_bytes();
    let mut k: usize = 0;
    while k < x.len() && k < y.len() && x[k] == y[k]
        invariant
            k <= x.len(),
            k <= y.len(),
            forall|i: int| 0 <= i < k ==> x@[i] == y@[i],
        decreases x.len() - k,
    {
        k = k + 1;
    }
    if k == x.len() && k == y.len() {
        proof {
            assert(x@ =~= y@);
            lemma_encoding_injective(a@, b@);
            if name_lt(a@, b@) {
                lemma_name_lt_asymmetric(a@, b@);
            }
        }
        Placement::Same
    } else if k == x.len() || (k < y.len() && x[k] < y[k]) {
        proof {
            assert(parts_at(x@, y@, k as int));
            lemma_name_lt_asymmetric(a@, b@);
        }
        Placement::Before
    } else {
        proof {
            assert(parts_at(y@, x@, k as int));
            lemma_name_lt_asymmetric(b@, a@);
        }
        Placement::After
    }
}

/// Whether two texts are the same.
pub fn same_text(a: &str, b: &str) -> (r: bool)
    ensures
        r == (a@ == b@),
{
    match place(a, b) {
        Placement::Same => true,
        _ => false,
    }
}

/// The decimal digit for `d`.
pub open spec fn digit(d: int) -> char {
    (d + 48) as char
}

/// The decimal form of a number: no sign, no leading zeros, `0` for zero.
pub open spec fn decimal(n: nat) -> Seq<char>
    decreases n,
{
    if n < 10 {
        seq![digit(n as int)]
    } else {
        decimal(n / 10).push(digit((n % 10) as int))
    }
}

fn digit_text(d: u128) -> (r: &'static str)
    requires
        d < 10,
    ensures
        r@ == seq![digit(d as int)],
{
    proof {
        reveal_strlit("0");
        reveal_strlit("1");
        reveal_strlit("2");
        reveal_strlit("3");
        reveal_strlit("4");
        reveal_strlit("5");
        reveal_strlit("6");
        reveal_strlit("7");
        reveal_strlit("8");
        reveal_strlit("9");
    }
    if d == 0 { "0" } else if d == 1 { "1" } else if d == 2 { "2" } else if d == 3 { "3" } else if d == 4 { "4" } else if d
        == 5 { "5" } else if d == 6 { "6" } else if d == 7 { "7" } else if d == 8 { "8" } else { "9" }
}

/// Writes a number out in decimal.
pub fn decimal_text(n: u128) -> (r: String)
    ensures
        r@ == decimal(n as nat),
    decreases n,
{
    if n < 10 {
        String::from_str(digit_text(n))
    } else {
        let mut out = decimal_text(n / 10);
        out.append(digit_text(n % 10));
        proof {
            let d = digit((n % 10) as int);
            assert(decimal((n / 10) as nat) + seq![d] =~= decimal((n / 10) as nat).push(d));
        }
        out
    }
}

/// The lower-case hexadecimal digit for `d`.
pub open spec fn hex_digit(d: int) -> char {
    if d < 10 {
        (d + 48) as char
    } else {
        (d + 87) as char
    }
}

/// The `width` low hexadecimal digits of a number, the lowest last.
pub open spec fn hex(n: nat, width: nat) -> Seq<char>
    decreases width,
{
    if width == 0 {
        Seq::empty()
    } else {
        hex(n / 16, (width - 1) as nat).push(hex_digit((n % 16) as int))
    }
}

fn hex_digit_text(d: u64) -> (r: &'static str)
    requires
        d < 16,
    ensures
        r@ == seq![hex_digit(d as int)],
{
    proof {
        reveal_strlit("a");
        reveal_strlit("b");
        reveal_strlit("c");
        reveal_strlit("d");
        reveal_strlit("e");
        reveal_strlit("f");
    }
    if d < 10 {
        digit_text(d as u128)
    } else if d == 10 { "a" } else if d == 11 { "b" } else if d == 12 { "c" } else if d == 13 { "d" } else if d
        == 14 { "e" } else { "f" }
}

/// Writes a number out in `width` lower-case hexadecimal digits.
pub fn hex_text(n: u64, width: usize) -> (r: String)
    ensures
        r@ == hex(n as nat, width as nat),
    decreases width,
{
    if width == 0 {
        String::new()
    } else {
        let mut out = hex_text(n / 16, width - 1);
        out.append(hex_digit_text(n % 16));
        proof {
            let d = hex_digit((n % 16) as int);
            assert(hex((n / 16) as nat, (width - 1) as nat) + seq![d] =~= hex((n / 16) as nat, (width - 1) as nat).push(
                d,
            ));
        }
        out
    }
}

/// Hexadecimal digits stand for one number.
pub proof fn lemma_hex_digit_injective(a: int, b: int)
    requires
        0 <= a < 16,
        0 <= b < 16,
        hex_digit(a) == hex_digit(b),
    ensures
        a == b,
{
}

/// Two numbers with the same hexadecimal form of a width that both fit are one number.
pub proof fn lemma_hex_injective(a: nat, b: nat, width: nat)
    requires
        hex(a, width) == hex(b, width),
        a < vstd::arithmetic::power::pow(16, width),
        b < vstd::arithmetic::power::pow(16, width),
    ensures
        a == b,
    decreases width,
{
    reveal(vstd::arithmetic::power::pow);
    if width > 0 {
        let w = (width - 1) as nat;
        let x = hex(a / 16, w);
        let y = hex(b / 16, w);
        assert(hex(a, width).last() == hex_digit((a % 16) as int));
        assert(hex(b, width).last() == hex_digit((b % 16) as int));
        lemma_hex_digit_injective((a % 16) as int, (b % 16) as int);
        assert(hex(a, width).drop_last() =~= x);
        assert(hex(b, width).drop_last() =~= y);
        let top = vstd::arithmetic::power::pow(16, w);
        assert(a < 16 * top);
        lemma_hex_injective(a / 16, b / 16, w);
    }
}

/// Two numbers of 64 bits with one form of sixteen digits are one number.
pub proof fn lemma_hex_of_word_injective(a: u64, b: u64)
    requires
        hex(a as nat, 16) == hex(b as nat, 16),
    ensures
        a == b,
{
    assert(vstd::arithmetic::power::pow(16, 16) == 0x1_0000_0000_0000_0000) by {
        reveal(vstd::arithmetic::power::pow);
        reveal_with_fuel(vstd::arithmetic::power::pow, 17);
    }
    lemma_hex_injective(a as nat, b as nat, 16);
}

/// Two bytes with one form of two digits are one byte.
pub proof fn lemma_hex_of_byte_injective(a: u8, b: u8)
    requires
        hex(a as nat, 2) == hex(b as nat, 2),
    ensures
        a == b,
{
    assert(vstd::arithmetic::power::pow(16, 2) == 0x100) by {
        reveal(vstd::arithmetic::power::pow);
        reveal_with_fuel(vstd::arithmetic::power::pow, 3);
    }
    lemma_hex_injective(a as nat, b as nat, 2);
}

/// How many digits a width has.
pub proof fn lemma_hex_len(n: nat, width: nat)
    ensures
        hex(n, width).len() == width,
    decreases width,
{
    if width > 0 {
        lemma_hex_len(n / 16, (width - 1) as nat);
    }
}

/// What `std::str::from_utf8` reports of bytes that are not valid UTF-8, in words.
pub uninterp spec fn utf8_fault(bytes: Seq<u8>) -> Seq<char>;

/// Reads bytes as text with `std::str::from_utf8`. The text's encoding is the bytes
/// where they are valid UTF-8; otherwise the error is what the function reports of them.
#[verifier::external_body]
pub(crate) fn text_from_utf8(bytes: &[u8]) -> (r: Result<String, String>)
    ensures
        match r {
            Ok(s) => valid_utf8(bytes@) && encode_utf8(s@) == bytes@,
            Err(e) => !valid_utf8(bytes@) && e@ == utf8_fault(bytes@),
        },
{
    match std::str::from_utf8(bytes) {
        Ok(s) => Ok(String::from(s)),
        Err(e) => Err(e.to_string()),
    }
}

/// The decimal form of a number that may be negative.
pub open spec fn signed_decimal(n: int) -> Seq<char> {
    if n < 0 {
        "-"@ + decimal((-n) as nat)
    } else {
        decimal(n as nat)
    }
}

/// Writes a number that may be negative in decimal.
pub fn signed_text(n: i64) -> (r: String)
    ensures
        r@ == signed_decimal(n as int),
{
    if n < 0 {
        let mut s = String::from_str("-");
        s.append(decimal_text((-(n as i128)) as u128).as_str());
        s
    } else {
        decimal_text(n as u128)
    }
}

/// Lists the characters of a text.
pub fn chars_of(s: &str) -> (r: Vec<char>)
    ensures
        r@ == s@,
{
    let mut out: Vec<char> = Vec::new();
    for c in it: s.chars()
        invariant
            it.seq() == s@,
            out@ == s@.take(it.index()),
    {
        out.push(c);
        assert(s@.take(it.index() + 1) =~= s@.take(it.index()).push(c));
    }
    assert(s@.take(s@.len() as int) =~= s@);
    out
}

/// Names are ordered by the bytes of their encoding: by the first that differs, and a name
/// that another continues comes before it. Of two names exactly one comes first, unless
/// they are one.
pub proof fn law_names_are_ordered_by_their_bytes(a: Seq<char>, b: Seq<char>, k: int)
    ensures
        ({
            let x = encode_utf8(a);
            let y = encode_utf8(b);
            let same = 0 <= k <= x.len() && k <= y.len() && x.take(k) == y.take(k);
            &&& same && k < x.len() && k < y.len() && x[k] < y[k] ==> name_lt(a, b) && !name_lt(b, a)
            &&& same && k == x.len() && k < y.len() ==> name_lt(a, b) && !name_lt(b, a)
        }),
        a == b ==> !name_lt(a, b),
        a != b ==> name_lt(a, b) != name_lt(b, a),
{
    let x = encode_utf8(a);
    let y = encode_utf8(b);
    if 0 <= k <= x.len() && k < y.len() && x.take(k) == y.take(k) && (k == x.len() || x[k] < y[k]) {
        assert forall|i: int| 0 <= i < k implies x[i] == y[i] by {
            assert(x.take(k)[i] == y.take(k)[i]);
        }
        assert(parts_at(x, y, k));
        lemma_name_lt_asymmetric(a, b);
    }
    lemma_name_lt_total(a, b);
    if name_lt(a, b) {
        lemma_name_lt_asymmetric(a, b);
    }
}

/// A decimal form is made of digits, its last is what the number leaves over ten, and before
/// it stands the form of the tenth part; only zero begins with a zero.
pub proof fn law_decimal_forms_are_digits(n: nat, i: int)
    ensures
        0 <= i < decimal(n).len() ==> '0' <= decimal(n)[i] <= '9',
        decimal(n).last() as int == 48 + n % 10,
        n >= 10 ==> decimal(n).drop_last() == decimal(n / 10),
        n < 10 ==> decimal(n).len() == 1,
        decimal(n).len() > 0,
        n > 0 ==> decimal(n)[0] != '0',
        n > 0 ==> signed_decimal(-(n as int)) == "-"@ + decimal(n),
        signed_decimal(n as int) == decimal(n),
    decreases n,
{
    if n >= 10 {
        law_decimal_forms_are_digits(n / 10, i);
        assert(decimal(n).drop_last() =~= decimal(n / 10));
        assert(n / 10 > 0);
    }
}

/// A hexadecimal form has a digit for every four bits of its width, the highest first, in
/// small letters.
pub proof fn law_hexadecimal_forms_are_digits(n: nat, width: nat, i: int)
    requires
        0 <= i < width,
    ensures
        hex(n, width).len() == width,
        ({
            let bits = (n / vstd::arithmetic::power::pow(16, (width - 1 - i) as nat) as nat) % 16;
            let c = hex(n, width)[i] as int;
            &&& bits < 10 ==> c == '0' as int + bits
            &&& bits >= 10 ==> c == 'a' as int + bits - 10
        }),
    decreases width,
{
    lemma_hex_len(n, width);
    reveal(vstd::arithmetic::power::pow);
    let w = (width - 1) as nat;
    lemma_hex_len(n / 16, w);
    if i < w {
        law_hexadecimal_forms_are_digits(n / 16, w, i);
        let up = (w - 1 - i) as nat;
        let p = vstd::arithmetic::power::pow(16, up);
        vstd::arithmetic::power::lemma_pow_positive(16, up);
        assert(vstd::arithmetic::power::pow(16, (width - 1 - i) as nat) == 16 * p);
        vstd::arithmetic::div_mod::lemma_div_denominator(n as int, 16, p);
        assert(hex(n, width)[i] == hex(n / 16, w)[i]);
    } else {
        assert(vstd::arithmetic::power::pow(16, 0) == 1);
        assert(n / 1 == n);
    }
}

} // verus!
