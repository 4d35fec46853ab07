//! Reading text: white space, words, lines and numbers.

use vstd::prelude::*;

verus! {

/// Whether a character is white space, as Unicode has it.
pub open spec fn is_space(c: char) -> bool {
    let n = c as int;
    ||| 0x09 <= n <= 0x0d
    ||| n == 0x20
    ||| n == 0x85
    ||| n == 0xa0
    ||| n == 0x1680
    ||| 0x2000 <= n <= 0x200a
    ||| n == 0x2028
    ||| n == 0x2029
    ||| n == 0x202f
    ||| n == 0x205f
    ||| n == 0x3000
}

/// A text without the white space that it begins with.
pub open spec fn trim_start(s: Seq<char>) -> Seq<char>
    decreases s.len(),
{
    if s.len() > 0 && is_space(s[0]) {
        trim_start(s.drop_first())
    } else {
        s
    }
}

/// A text without the white space that it ends with.
pub open spec fn trim_end(s: Seq<char>) -> Seq<char>
    decreases s.len(),
{
    if s.len() > 0 && is_space(s.last()) {
        trim_end(s.drop_last())
    } else {
        s
    }
}

/// A text without the white space round it.
pub open spec fn trimmed(s: Seq<char>) -> Seq<char> {
    trim_end(trim_start(s))
}

/// How many characters come before the first white space.
pub open spec fn word_len(s: Seq<char>) -> nat
    decreases s.len(),
{
    if s.len() == 0 || is_space(s[0]) {
        0
    } else {
        1 + word_len(s.drop_first())
    }
}

/// The first word of a text. It is empty where the text holds none.
pub open spec fn first_word(s: Seq<char>) -> Seq<char> {
    trim_start(s).take(word_len(trim_start(s)) as int)
}

/// What follows the first word of a text.
pub open spec fn after_word(s: Seq<char>) -> Seq<char> {
    trim_start(s).skip(word_len(trim_start(s)) as int)
}

/// How many characters come before the first line break.
pub open spec fn line_len(s: Seq<char>) -> nat
    decreases s.len(),
{
    if s.len() == 0 || s[0] == '\n' {
        0
    } else {
        1 + line_len(s.drop_first())
    }
}

/// Whether a character is a decimal digit.
pub open spec fn is_digit(c: char) -> bool {
    '0' <= c <= '9'
}

/// Whether a text is made of digits, with at least one.
pub open spec fn all_digits(s: Seq<char>) -> bool {
    s.len() > 0 && forall|i: int| 0 <= i < s.len() ==> is_digit(#[trigger] s[i])
}

/// The number that digits stand for.
pub open spec fn digits_value(s: Seq<char>) -> nat
    decreases s.len(),
{
    if s.len() == 0 {
        0
    } else {
        digits_value(s.drop_last()) * 10 + (s.last() as int - '0' as int) as nat
    }
}

/// A text without the one sign that it may begin with.
pub open spec fn unsigned_body(s: Seq<char>, sign: char) -> Seq<char> {
    if s.len() > 0 && s[0] == sign {
        s.drop_first()
    } else {
        s
    }
}

/// The number that a text stands for: digits, after a `+` or not, up to a bound.
pub open spec fn unsigned(s: Seq<char>, max: nat) -> Option<nat> {
    let body = unsigned_body(s, '+');
    if all_digits(body) && digits_value(body) <= max {
        Some(digits_value(body))
    } else {
        None
    }
}

/// The number that a text stands for: digits, after a sign or not, of 64 bits.
pub open spec fn signed(s: Seq<char>) -> Option<int> {
    if s.len() > 0 && s[0] == '-' {
        let body = s.drop_first();
        if all_digits(body) && digits_value(body) <= 0x8000_0000_0000_0000 {
            Some(-(digits_value(body) as int))
        } else {
            None
        }
    } else {
        match unsigned(s, 0x7fff_ffff_ffff_ffff) {
            Some(n) => Some(n as int),
            None => None,
        }
    }
}

proof fn lemma_prefix_is_no_more(s: Seq<char>, n: int)
    requires
        0 <= n <= s.len(),
        forall|i: int| 0 <= i < s.len() ==> is_digit(#[trigger] s[i]),
    ensures
        digits_value(s.take(n)) <= digits_value(s),
    decreases s.len() - n,
{
    if n == s.len() {
        assert(s.take(n) =~= s);
    } else {
        lemma_prefix_is_no_more(s, n + 1);
        assert(s.take(n + 1).drop_last() =~= s.take(n));
        assert(s.take(n + 1).last() == s[n]);
    }
}

/// Whether a character is white space.
fn space(c: char) -> (r: bool)
    ensures
        r == is_space(c),
{
    let n: u32 = c as u32;
    (0x09 <= n && n <= 0x0d) || n == 0x20 || n == 0x85 || n == 0xa0 || n == 0x1680 || (0x2000 <= n && n <= 0x200a) || n
        == 0x2028 || n == 0x2029 || n == 0x202f || n == 0x205f || n == 0x3000
}

/// Copies part of a text.
pub fn part(s: &Vec<char>, from: usize, to: usize) -> (r: Vec<char>)
    requires
        from <= to <= s.len(),
    ensures
        r@ == s@.subrange(from as int, to as int),
{
    let mut out: Vec<char> = Vec::new();
    let mut i: usize = from;
    while i < to
        invariant
            from <= i <= to <= s.len(),
            out@ == s@.subrange(from as int, i as int),
        decreases to - i,
    {
        out.push(s[i]);
        i = i + 1;
        assert(s@.subrange(from as int, i as int) =~= s@.subrange(from as int, i - 1).push(s@[i - 1]));
    }
    out
}

fn start_of(s: &Vec<char>) -> (r: usize)
    ensures
        r <= s.len(),
        trim_start(s@) == s@.skip(r as int),
{
    let mut i: usize = 0;
    assert(s@.skip(0) =~= s@);
    while i < s.len() && space(s[i])
        invariant
            i <= s.len(),
            trim_start(s@) == trim_start(s@.skip(i as int)),
        decreases s.len() - i,
    {
        assert(s@.skip(i as int)[0] == s@[i as int]);
        assert(s@.skip(i as int).drop_first() =~= s@.skip(i + 1));
        i = i + 1;
    }
    i
}

/// A text without the white space round it.
pub fn trim(s: &Vec<char>) -> (r: Vec<char>)
    ensures
        r@ == trimmed(s@),
{
    let from: usize = start_of(s);
    let mut to: usize = s.len();
    assert(s@.skip(from as int) =~= s@.subrange(from as int, to as int));
    while to > from && space(s[to - 1])
        invariant
            from <= to <= s.len(),
            trimmed(s@) == trim_end(s@.subrange(from as int, to as int)),
        decreases to - from,
    {
        let ghost now = s@.subrange(from as int, to as int);
        assert(now.last() == s@[to - 1]);
        assert(now.drop_last() =~= s@.subrange(from as int, to - 1));
        to = to - 1;
    }
    proof {
        let now = s@.subrange(from as int, to as int);
        if to > from {
            assert(now.last() == s@[to - 1]);
        }
    }
    part(s, from, to)
}

/// The first word of a text, if it holds one, and what follows it.
pub fn split_word(s: &Vec<char>) -> (r: Option<(Vec<char>, Vec<char>)>)
    ensures
        match r {
            Some((word, rest)) => word@.len() > 0 && word@ == first_word(s@) && rest@ == after_word(s@),
            None => first_word(s@).len() == 0,
        },
{
    let from: usize = start_of(s);
    let ghost text = trim_start(s@);
    let mut to: usize = from;
    assert(text.skip(0) =~= text);
    while to < s.len() && !space(s[to])
        invariant
            from <= to <= s.len(),
            text == s@.skip(from as int),
            word_len(text) == (to - from) + word_len(text.skip(to - from)),
        decreases s.len() - to,
    {
        let ghost now = text.skip(to - from);
        assert(now[0] == s@[to as int]);
        assert(now.drop_first() =~= text.skip(to + 1 - from));
        to = to + 1;
    }
    proof {
        let now = text.skip(to - from);
        if to < s.len() {
            assert(now[0] == s@[to as int]);
        }
        assert(word_len(text) == to - from);
        assert(s@.subrange(from as int, to as int) =~= first_word(s@));
        assert(s@.subrange(to as int, s@.len() as int) =~= after_word(s@));
    }
    if from == to {
        None
    } else {
        Some((part(s, from, to), part(s, to, s.len())))
    }
}

/// Where the line that begins at a place ends.
pub fn line_end(s: &Vec<char>, from: usize) -> (r: usize)
    requires
        from <= s.len(),
    ensures
        from <= r <= s.len(),
        r == from + line_len(s@.skip(from as int)),
        r < s.len() ==> s@[r as int] == '\n',
{
    let ghost text = s@.skip(from as int);
    let mut to: usize = from;
    assert(text.skip(0) =~= text);
    while to < s.len() && s[to] != '\n'
        invariant
            from <= to <= s.len(),
            text == s@.skip(from as int),
            line_len(text) == (to - from) + line_len(text.skip(to - from)),
        decreases s.len() - to,
    {
        let ghost now = text.skip(to - from);
        assert(now[0] == s@[to as int]);
        assert(now.drop_first() =~= text.skip(to + 1 - from));
        to = to + 1;
    }
    proof {
        let now = text.skip(to - from);
        if to < s.len() {
            assert(now[0] == s@[to as int]);
        }
    }
    to
}

/// Whether a text begins with another.
pub fn starts_with(s: &Vec<char>, prefix: &Vec<char>) -> (r: bool)
    ensures
        r == prefix@.is_prefix_of(s@),
{
    if prefix.len() > s.len() {
        return false;
    }
    let mut i: usize = 0;
    while i < prefix.len()
        invariant
            i <= prefix.len() <= s.len(),
            forall|k: int| 0 <= k < i ==> prefix@[k] == s@[k],
        decreases prefix.len() - i,
    {
        if prefix[i] != s[i] {
            assert(prefix@[i as int] != s@.subrange(0, prefix@.len() as int)[i as int]);
            return false;
        }
        i = i + 1;
    }
    assert(prefix@ =~= s@.subrange(0, prefix@.len() as int));
    true
}

fn read_digits(s: &Vec<char>, from: usize, max: u64) -> (r: Option<u64>)
    requires
        from <= s.len(),
    ensures
        ({
            let body = s@.skip(from as int);
            match r {
                Some(n) => all_digits(body) && n == digits_value(body) && n <= max,
                None => !all_digits(body) || digits_value(body) > max,
            }
        }),
{
    let ghost body = s@.skip(from as int);
    if from == s.len() {
        return None;
    }
    let mut value: u64 = 0;
    let mut i: usize = from;
    while i < s.len()
        invariant
            from <= i <= s.len(),
            body == s@.skip(from as int),
            value == digits_value(body.take(i - from)),
            value <= max,
            forall|k: int| 0 <= k < i - from ==> is_digit(#[trigger] body[k]),
        decreases s.len() - i,
    {
        let c: char = s[i];
        let ghost next = body.take(i + 1 - from);
        proof {
            assert(body[i - from] == c);
            assert(next.drop_last() =~= body.take(i - from));
            assert(next.last() == c);
        }
        if c < '0' || c > '9' {
            assert(!is_digit(body[i - from]));
            return None;
        }
        let digit: u64 = (c as u32 - '0' as u32) as u64;
        let wide: u128 = value as u128 * 10 + digit as u128;
        assert(wide == digits_value(next));
        if wide > max as u128 {
            proof {
                if all_digits(body) {
                    lemma_prefix_is_no_more(body, i + 1 - from);
                }
            }
            return None;
        }
        value = wide as u64;
        i = i + 1;
    }
    assert(body.take(i - from) =~= body);
    Some(value)
}

/// Reads a number up to a bound: digits, after a `+` or not.
pub fn read_unsigned(s: &Vec<char>, max: u64) -> (r: Option<u64>)
    ensures
        match r {
            Some(n) => unsigned(s@, max as nat) == Some(n as nat),
            None => unsigned(s@, max as nat) is None,
        },
{
    let from: usize = if s.len() > 0 && s[0] == '+' {
        1
    } else {
        0
    };
    assert(s@.skip(from as int) =~= unsigned_body(s@, '+'));
    read_digits(s, from, max)
}

/// Reads a number of 64 bits that may be negative: digits, after a sign or not.
pub fn read_signed(s: &Vec<char>) -> (r: Option<i64>)
    ensures
        match r {
            Some(n) => signed(s@) == Some(n as int),
            None => signed(s@) is None,
        },
{
    if s.len() > 0 && s[0] == '-' {
        assert(s@.skip(1) =~= s@.drop_first());
        match read_digits(s, 1, 0x8000_0000_0000_0000) {
            Some(n) => {
                let value: i128 = -(n as i128);
                Some(value as i64)
            },
            None => None,
        }
    } else {
        match read_unsigned(s, 0x7fff_ffff_ffff_ffff) {
            Some(n) => Some(n as i64),
            None => None,
        }
    }
}

/// White space is the space and the tab, what breaks a line or a page, and the spaces
/// that other scripts use; a letter, a digit or a sign is none.
pub proof fn law_white_space(c: char)
    ensures
        is_space(' ') && is_space('\t') && is_space('\n') && is_space('\r') && is_space('\u{b}') && is_space('\u{c}'),
        is_space('\u{85}') && is_space('\u{a0}') && is_space('\u{1680}') && is_space('\u{3000}'),
        '\u{2000}' <= c <= '\u{200a}' || '\u{2028}' <= c <= '\u{2029}' || c == '\u{202f}' || c == '\u{205f}' ==> is_space(
            c,
        ),
        is_space(c) && c < '\u{80}' ==> c == ' ' || '\t' <= c <= '\r',
        is_space(c) ==> c <= ' ' || c == '\u{85}' || c == '\u{a0}' || c == '\u{1680}' || '\u{2000}' <= c <= '\u{200a}' || c
            == '\u{2028}' || c == '\u{2029}' || c == '\u{202f}' || c == '\u{205f}' || c == '\u{3000}',
        '!' <= c <= '~' ==> !is_space(c),
{
}

/// Whether a text is white space only.
pub open spec fn blank(s: Seq<char>) -> bool {
    forall|i: int| 0 <= i < s.len() ==> is_space(#[trigger] s[i])
}

/// Whether a text neither begins nor ends with white space, and is not empty.
pub open spec fn bare(s: Seq<char>) -> bool {
    s.len() > 0 && !is_space(s[0]) && !is_space(s.last())
}

proof fn lemma_trim_start_blank(before: Seq<char>, s: Seq<char>)
    requires
        blank(before),
        s.len() > 0 ==> !is_space(s[0]),
    ensures
        trim_start(before + s) == s,
    decreases before.len(),
{
    if before.len() > 0 {
        assert((before + s)[0] == before[0]);
        assert((before + s).drop_first() =~= before.drop_first() + s);
        assert forall|i: int| 0 <= i < before.drop_first().len() implies is_space(#[trigger] before.drop_first()[i]) by {
            assert(is_space(before[i + 1]));
        }
        lemma_trim_start_blank(before.drop_first(), s);
    } else {
        assert(before + s =~= s);
    }
}

proof fn lemma_trim_end_blank(s: Seq<char>, after: Seq<char>)
    requires
        blank(after),
        s.len() > 0 ==> !is_space(s.last()),
    ensures
        trim_end(s + after) == s,
    decreases after.len(),
{
    if after.len() > 0 {
        assert((s + after).last() == after.last());
        assert((s + after).drop_last() =~= s + after.drop_last());
        lemma_trim_end_blank(s, after.drop_last());
    } else {
        assert(s + after =~= s);
    }
}

/// Trimming takes away the white space round a text, all of it and nothing else.
pub proof fn law_trimming_takes_what_is_round(before: Seq<char>, s: Seq<char>, after: Seq<char>)
    requires
        blank(before),
        blank(after),
        bare(s),
    ensures
        trimmed(before + s + after) == s,
        trimmed(before).len() == 0,
{
    assert(before + s + after =~= before + (s + after));
    lemma_trim_start_blank(before, s + after);
    lemma_trim_end_blank(s, after);
    lemma_trim_start_blank(before, Seq::empty());
    assert(before + Seq::<char>::empty() =~= before);
}

proof fn lemma_word_len(w: Seq<char>, rest: Seq<char>)
    requires
        forall|i: int| 0 <= i < w.len() ==> !is_space(#[trigger] w[i]),
        rest.len() > 0 ==> is_space(rest[0]),
    ensures
        word_len(w + rest) == w.len(),
    decreases w.len(),
{
    if w.len() > 0 {
        assert((w + rest)[0] == w[0]);
        assert((w + rest).drop_first() =~= w.drop_first() + rest);
        assert forall|i: int| 0 <= i < w.drop_first().len() implies !is_space(#[trigger] w.drop_first()[i]) by {
            assert(!is_space(w[i + 1]));
        }
        lemma_word_len(w.drop_first(), rest);
    } else {
        assert(w + rest =~= rest);
    }
}

/// The first word of a text is what stands between white space, and what follows it is
/// the rest.
pub proof fn law_a_word_ends_at_white_space(before: Seq<char>, w: Seq<char>, rest: Seq<char>)
    requires
        blank(before),
        w.len() > 0,
        forall|i: int| 0 <= i < w.len() ==> !is_space(#[trigger] w[i]),
        rest.len() > 0 ==> is_space(rest[0]),
    ensures
        first_word(before + w + rest) == w,
        after_word(before + w + rest) == rest,
{
    assert(before + w + rest =~= before + (w + rest));
    assert(!is_space((w + rest)[0]));
    lemma_trim_start_blank(before, w + rest);
    lemma_word_len(w, rest);
    assert((w + rest).take(w.len() as int) =~= w);
    assert((w + rest).skip(w.len() as int) =~= rest);
}

/// The decimal form of a number is made of digits, begins with a zero only where it is
/// nothing else, and stands for that number.
pub proof fn law_decimal_form_is_read_back(n: nat)
    ensures
        all_digits(crate::text::decimal(n)),
        digits_value(crate::text::decimal(n)) == n,
        crate::text::decimal(n).len() > 1 ==> crate::text::decimal(n)[0] != '0',
        forall|i: int|
            0 <= i < crate::text::decimal(n).len() ==> !is_space(#[trigger] crate::text::decimal(n)[i]) && crate::text::decimal(
                n,
            )[i] != '+' && crate::text::decimal(n)[i] != '-',
        bare(crate::text::decimal(n)),
    decreases n,
{
    reveal_with_fuel(digits_value, 2);
    let s = crate::text::decimal(n);
    if n < 10 {
        assert(s.drop_last() =~= Seq::<char>::empty());
        assert(is_digit(s[0]));
    } else {
        let front = crate::text::decimal(n / 10);
        law_decimal_form_is_read_back(n / 10);
        assert(s.drop_last() =~= front);
        assert(front.len() > 0);
        assert(s[0] == front[0]);
        if front.len() == 1 {
            assert(front.drop_last() =~= Seq::<char>::empty());
            assert(digits_value(front) == (front[0] as int - '0' as int));
            assert(front[0] != '0');
        }
        assert forall|i: int| 0 <= i < s.len() implies is_digit(#[trigger] s[i]) by {
            if i < front.len() {
                assert(s[i] == front[i]);
            }
        }
    }
    assert forall|i: int| 0 <= i < s.len() implies !is_space(#[trigger] s[i]) && s[i] != '+' && s[i] != '-' by {
        assert(is_digit(s[i]));
    }
}

/// Digits are worth ten times what stands before the last of them, and the last.
pub proof fn law_digits_are_worth_their_place(s: Seq<char>, c: char)
    ensures
        digits_value(Seq::<char>::empty()) == 0,
        '0' <= c <= '9' ==> digits_value(s.push(c)) == 10 * digits_value(s) + (c as int - 48),
{
    assert(s.push(c).drop_last() =~= s);
}

/// A number is read from its decimal form, with a plus before it or not, where it is
/// within the bound, and refused where it is beyond. A text with any other character in
/// it, and an empty one, stands for no number.
pub proof fn law_numbers_are_read(n: nat, max: nat, s: Seq<char>)
    ensures
        n <= max ==> unsigned(crate::text::decimal(n), max) == Some(n) && unsigned(
            seq!['+'] + crate::text::decimal(n),
            max,
        ) == Some(n),
        n > max ==> unsigned(crate::text::decimal(n), max) is None && unsigned(
            seq!['+'] + crate::text::decimal(n),
            max,
        ) is None,
        s.len() == 0 ==> unsigned(s, max) is None,
        (exists|i: int| 0 < i < s.len() && !('0' <= #[trigger] s[i] <= '9')) ==> unsigned(s, max) is None,
        s.len() > 0 && !('0' <= s[0] <= '9') && s[0] != '+' ==> unsigned(s, max) is None,
        s.len() == 1 && s[0] == '+' ==> unsigned(s, max) is None,
        unsigned(s, max) matches Some(m) ==> m <= max,
{
    let d = crate::text::decimal(n);
    law_decimal_form_is_read_back(n);
    let plus = seq!['+'] + d;
    assert(d[0] != '+');
    assert(plus.drop_first() =~= d);
    if exists|i: int| 0 < i < s.len() && !('0' <= #[trigger] s[i] <= '9') {
        let i = choose|i: int| 0 < i < s.len() && !('0' <= #[trigger] s[i] <= '9');
        let body = unsigned_body(s, '+');
        let j = if s[0] == '+' {
            i - 1
        } else {
            i
        };
        assert(body[j] == s[i]);
        assert(!is_digit(body[j]));
    }
    if s.len() > 0 && !('0' <= s[0] <= '9') && s[0] != '+' {
        assert(!is_digit(unsigned_body(s, '+')[0]));
    }
}

/// A number that may be negative is read from its decimal form, after a minus where it is
/// negative, within 64 bits and not beyond.
pub proof fn law_signed_numbers_are_read(n: nat)
    ensures
        n < 0x8000_0000_0000_0000 ==> signed(crate::text::decimal(n)) == Some(n as int),
        n >= 0x8000_0000_0000_0000 ==> signed(crate::text::decimal(n)) is None,
        n <= 0x8000_0000_0000_0000 ==> signed(seq!['-'] + crate::text::decimal(n)) == Some(-(n as int)),
        n > 0x8000_0000_0000_0000 ==> signed(seq!['-'] + crate::text::decimal(n)) is None,
{
    let d = crate::text::decimal(n);
    law_decimal_form_is_read_back(n);
    law_numbers_are_read(n, 0x7fff_ffff_ffff_ffff, d);
    let minus = seq!['-'] + d;
    assert(minus.drop_first() =~= d);
    assert(d[0] != '-');
}

/// A line reaches to the first line break, or to the end where there is none.
pub proof fn law_a_line_ends_at_its_break(line: Seq<char>, rest: Seq<char>)
    requires
        forall|i: int| 0 <= i < line.len() ==> #[trigger] line[i] != '\n',
        rest.len() > 0 ==> rest[0] == '\n',
    ensures
        line_len(line + rest) == line.len(),
    decreases line.len(),
{
    if line.len() > 0 {
        assert((line + rest)[0] == line[0]);
        assert((line + rest).drop_first() =~= line.drop_first() + rest);
        assert forall|i: int| 0 <= i < line.drop_first().len() implies #[trigger] line.drop_first()[i] != '\n' by {
            assert(line[i + 1] != '\n');
        }
        law_a_line_ends_at_its_break(line.drop_first(), rest);
    } else {
        assert(line + rest =~= rest);
    }
}

/// Any digits stand for the number that they make, zeros before it or not, where it is
/// within the bound: alone, after a plus and, for a number that may be negative, after a
/// minus, down to one below the largest.
pub proof fn law_any_digits_are_a_number(s: Seq<char>, max: nat)
    requires
        s.len() > 0,
        forall|i: int| 0 <= i < s.len() ==> '0' <= #[trigger] s[i] <= '9',
    ensures
        digits_value(s) <= max ==> unsigned(s, max) == Some(digits_value(s)) && unsigned(seq!['+'] + s, max) == Some(
            digits_value(s),
        ),
        digits_value(s) > max ==> unsigned(s, max) is None && unsigned(seq!['+'] + s, max) is None,
        digits_value(s) <= 9_223_372_036_854_775_807 ==> signed(s) == Some(digits_value(s) as int) && signed(
            seq!['+'] + s,
        ) == Some(digits_value(s) as int),
        digits_value(s) <= 9_223_372_036_854_775_808 ==> signed(seq!['-'] + s) == Some(-(digits_value(s) as int)),
        digits_value(s) > 9_223_372_036_854_775_807 ==> signed(s) is None && signed(seq!['+'] + s) is None,
        digits_value(s) > 9_223_372_036_854_775_808 ==> signed(seq!['-'] + s) is None,
{
    assert('0' <= s[0] <= '9');
    assert((seq!['+'] + s).drop_first() =~= s);
    assert((seq!['-'] + s).drop_first() =~= s);
    assert((seq!['+'] + s)[0] == '+');
    assert((seq!['-'] + s)[0] == '-');
}

} // verus!
