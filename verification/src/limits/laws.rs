//! What holds of the sizing of pools.

use super::capacity::{self, ErrorView};
use super::pins::{self, PinnedPools};
use super::probe::{self, RawLimits, ReadingsView};
use crate::admission::{Pool, PoolCapacities, PoolCost};
use crate::scan;
use crate::text;
use vstd::prelude::*;

verus! {

/// Every pool that is not pinned gets at least one unit, whatever is kept of the limits;
/// a pool that is pinned gets exactly what it is pinned to.
pub proof fn law_every_pool_has_a_unit(kept: RawLimits, pins: PinnedPools)
    ensures
        pins.memory is None ==> probe::sized(kept, pins).memory >= 1,
        pins.blocking_threads is None ==> probe::sized(kept, pins).blocking_threads >= 1,
        pins.compute_threads is None ==> probe::sized(kept, pins).compute_threads >= 1,
        pins.memory matches Some(n) ==> probe::sized(kept, pins).memory == n,
        pins.blocking_threads matches Some(n) ==> probe::sized(kept, pins).blocking_threads == n,
        pins.compute_threads matches Some(n) ==> probe::sized(kept, pins).compute_threads == n,
{
}

/// The two limits are found independently: what is reported of the processor does not
/// change the memory limit, and the other way round.
pub proof fn law_limits_are_independent(a: ReadingsView, b: ReadingsView, cores_a: u32, cores_b: u32)
    ensures
        a.unified_memory == b.unified_memory && a.split_memory == b.split_memory && a.host_memory == b.host_memory
            ==> probe::limits_of(a, cores_a).memory_bytes == probe::limits_of(b, cores_b).memory_bytes,
        a.unified_cpu == b.unified_cpu && a.split_quota == b.split_quota && a.split_period == b.split_period && cores_a
            == cores_b ==> probe::limits_of(a, cores_a).cpu_threads == probe::limits_of(b, cores_b).cpu_threads,
{
}

/// A limit of the unified hierarchy is taken whatever the other sources say; one of the
/// older hierarchy where the unified one has none; and the host's only where neither has
/// any.
pub proof fn law_sources_are_tried_in_order(r: ReadingsView, cores: u32)
    ensures
        probe::unified_memory(r.unified_memory) matches Some(n) ==> probe::limits_of(r, cores).memory_bytes == n,
        probe::unified_memory(r.unified_memory) is None ==> (probe::split_memory(r.split_memory) matches Some(n)
            ==> probe::limits_of(r, cores).memory_bytes == n),
        probe::unified_memory(r.unified_memory) is None && probe::split_memory(r.split_memory) is None
            ==> probe::limits_of(r, cores).memory_bytes == probe::host_memory(r.host_memory),
        probe::unified_cpu(r.unified_cpu) matches Some(n) ==> probe::limits_of(r, cores).cpu_threads == n,
        probe::unified_cpu(r.unified_cpu) is None ==> (probe::split_cpu(r.split_quota, r.split_period) matches Some(n)
            ==> probe::limits_of(r, cores).cpu_threads == n),
        probe::unified_cpu(r.unified_cpu) is None && probe::split_cpu(r.split_quota, r.split_period) is None
            ==> probe::limits_of(r, cores).cpu_threads == cores,
{
}

/// Whether a file held a number in decimal with nothing but white space round it.
pub open spec fn holds_number(reading: Option<Seq<char>>, n: nat) -> bool {
    exists|before: Seq<char>, after: Seq<char>|
        #![trigger scan::blank(before), scan::blank(after)]
        scan::blank(before) && scan::blank(after) && reading == Some(before + text::decimal(n) + after)
}

/// Whether a file held the word for no limit with nothing but white space round it.
pub open spec fn holds_no_limit(reading: Option<Seq<char>>) -> bool {
    exists|before: Seq<char>, after: Seq<char>|
        #![trigger scan::blank(before), scan::blank(after)]
        scan::blank(before) && scan::blank(after) && reading == Some(before + seq!['m', 'a', 'x'] + after)
}

proof fn lemma_max()
    ensures
        probe::NO_LIMIT@ == seq!['m', 'a', 'x'],
        scan::bare(probe::NO_LIMIT@),
        forall|i: int| 0 <= i < probe::NO_LIMIT@.len() ==> !scan::is_space(#[trigger] probe::NO_LIMIT@[i]),
{
    reveal_strlit("max");
    assert(probe::NO_LIMIT@ =~= seq!['m', 'a', 'x']);
}

proof fn lemma_number_counts(reading: Option<Seq<char>>, n: nat)
    requires
        holds_number(reading, n),
    ensures
        probe::counted(reading) == Some(text::decimal(n)),
        text::decimal(n) != probe::NO_LIMIT@,
        n <= u64::MAX ==> probe::word64(text::decimal(n)) == Some(n as u64),
        n > u64::MAX ==> probe::word64(text::decimal(n)) is None,
{
    let (before, after) = choose|before: Seq<char>, after: Seq<char>|
        #![trigger scan::blank(before), scan::blank(after)]
        scan::blank(before) && scan::blank(after) && reading == Some(before + text::decimal(n) + after);
    scan::law_decimal_form_is_read_back(n);
    scan::law_trimming_takes_what_is_round(before, text::decimal(n), after);
    scan::law_numbers_are_read(n, u64::MAX as nat, text::decimal(n));
    lemma_max();
    assert(scan::is_digit(text::decimal(n)[0]));
}

proof fn lemma_no_limit_counts(reading: Option<Seq<char>>)
    requires
        holds_no_limit(reading),
    ensures
        probe::counted(reading) == Some(probe::NO_LIMIT@),
{
    let (before, after) = choose|before: Seq<char>, after: Seq<char>|
        #![trigger scan::blank(before), scan::blank(after)]
        scan::blank(before) && scan::blank(after) && reading == Some(before + seq!['m', 'a', 'x'] + after);
    lemma_max();
    scan::law_trimming_takes_what_is_round(before, probe::NO_LIMIT@, after);
}

/// A memory limit that the unified hierarchy reports is the limit, whatever it is and
/// whatever else was read. Where that hierarchy says that there is none, or is not there,
/// the older one's counts, unless it is one of those near the largest number by which it
/// says that there is none.
pub proof fn law_a_reported_memory_limit_is_the_limit(r: ReadingsView, cores: u32, n: u64)
    ensures
        holds_number(r.unified_memory, n as nat) ==> probe::limits_of(r, cores).memory_bytes == n,
        holds_no_limit(r.unified_memory) || r.unified_memory is None ==> probe::limits_of(r, cores).memory_bytes
            == probe::limits_of(ReadingsView { unified_memory: None, ..r }, cores).memory_bytes,
        (holds_no_limit(r.unified_memory) || r.unified_memory is None) && holds_number(r.split_memory, n as nat) && n
            < 18_446_744_069_414_580_224 ==> probe::limits_of(r, cores).memory_bytes == n,
        (holds_no_limit(r.unified_memory) || r.unified_memory is None) && (r.split_memory is None || (holds_number(
            r.split_memory,
            n as nat,
        ) && n >= 18_446_744_069_414_580_224)) ==> probe::limits_of(r, cores).memory_bytes == probe::host_memory(
            r.host_memory,
        ),
{
    if holds_number(r.unified_memory, n as nat) {
        lemma_number_counts(r.unified_memory, n as nat);
    }
    if holds_no_limit(r.unified_memory) {
        lemma_no_limit_counts(r.unified_memory);
    }
    if holds_number(r.split_memory, n as nat) {
        lemma_number_counts(r.split_memory, n as nat);
    }
}

/// Whether a file held two numbers in decimal, with white space between them and nothing
/// but white space round them.
pub open spec fn holds_numbers(reading: Option<Seq<char>>, m: nat, n: nat) -> bool {
    exists|before: Seq<char>, between: Seq<char>, after: Seq<char>|
        #![trigger scan::blank(before), scan::blank(between), scan::blank(after)]
        scan::blank(before) && scan::blank(between) && scan::blank(after) && between.len() > 0 && reading == Some(
            before + (text::decimal(m) + (between + text::decimal(n))) + after,
        )
}

proof fn lemma_numbers_count(reading: Option<Seq<char>>, m: nat, n: nat)
    requires
        holds_numbers(reading, m, n),
    ensures
        probe::counted(reading) is Some,
        scan::first_word(probe::counted(reading)->0) == text::decimal(m),
        scan::first_word(scan::after_word(probe::counted(reading)->0)) == text::decimal(n),
{
    let (before, between, after) = choose|before: Seq<char>, between: Seq<char>, after: Seq<char>|
        #![trigger scan::blank(before), scan::blank(between), scan::blank(after)]
        scan::blank(before) && scan::blank(between) && scan::blank(after) && between.len() > 0 && reading == Some(
            before + (text::decimal(m) + (between + text::decimal(n))) + after,
        );
    let a = text::decimal(m);
    let b = text::decimal(n);
    let none = Seq::<char>::empty();
    scan::law_decimal_form_is_read_back(m);
    scan::law_decimal_form_is_read_back(n);
    let core = a + (between + b);
    assert(core[0] == a[0]);
    assert(core.last() == b.last());
    scan::law_trimming_takes_what_is_round(before, core, after);
    assert(none + a + (between + b) =~= core);
    assert((between + b)[0] == between[0]);
    scan::law_a_word_ends_at_white_space(none, a, between + b);
    assert(between + b + none =~= between + b);
    scan::law_a_word_ends_at_white_space(between, b, none);
}

/// A processor limit is the whole number of times that the period goes into the quota,
/// where both are reported and the period is not nothing: first the unified hierarchy's,
/// next the older one's, whose negative quota means that there is no limit. Where neither
/// has one it is what the host has.
pub proof fn law_a_reported_quota_is_the_limit(r: ReadingsView, cores: u32, quota: u64, period: u64)
    requires
        period > 0,
        quota / period <= u32::MAX,
    ensures
        holds_numbers(r.unified_cpu, quota as nat, period as nat) ==> probe::limits_of(r, cores).cpu_threads == quota
            / period,
        (r.unified_cpu is None || holds_no_limit(r.unified_cpu)) && quota <= i64::MAX && holds_number(
            r.split_quota,
            quota as nat,
        ) && holds_number(r.split_period, period as nat) ==> probe::limits_of(r, cores).cpu_threads == quota / period,
        (r.unified_cpu is None || holds_no_limit(r.unified_cpu)) && (r.split_quota is None || r.split_period is None)
            ==> probe::limits_of(r, cores).cpu_threads == cores,
{
    if holds_numbers(r.unified_cpu, quota as nat, period as nat) {
        lemma_numbers_count(r.unified_cpu, quota as nat, period as nat);
        scan::law_numbers_are_read(quota as nat, u64::MAX as nat, text::decimal(quota as nat));
        scan::law_numbers_are_read(period as nat, u64::MAX as nat, text::decimal(period as nat));
        scan::law_decimal_form_is_read_back(quota as nat);
        lemma_max();
        assert(scan::is_digit(text::decimal(quota as nat)[0]));
    }
    if holds_no_limit(r.unified_cpu) {
        lemma_no_limit_counts(r.unified_cpu);
        lemma_max();
        let none = Seq::<char>::empty();
        assert(none + probe::NO_LIMIT@ + none =~= probe::NO_LIMIT@);
        scan::law_a_word_ends_at_white_space(none, probe::NO_LIMIT@, none);
    }
    if quota <= i64::MAX && holds_number(r.split_quota, quota as nat) && holds_number(r.split_period, period as nat) {
        lemma_number_counts(r.split_quota, quota as nat);
        lemma_number_counts(r.split_period, period as nat);
        scan::law_signed_numbers_are_read(quota as nat);
    }
}

/// A quota that is no limit is passed over: a period of nothing, the word for no limit
/// before a period, a negative quota, or more threads than can be counted.
pub proof fn law_a_quota_without_limit_is_passed_over(
    r: ReadingsView,
    cores: u32,
    quota: nat,
    period: nat,
    between: Seq<char>,
    before: Seq<char>,
    after: Seq<char>,
)
    requires
        scan::blank(before),
        scan::blank(between),
        scan::blank(after),
        between.len() > 0,
    ensures
        holds_numbers(r.unified_cpu, quota, period) && (period == 0 || quota / period > u32::MAX)
            ==> probe::limits_of(r, cores).cpu_threads == probe::limits_of(
            ReadingsView { unified_cpu: None, ..r },
            cores,
        ).cpu_threads,
        r.unified_cpu == Some(before + (seq!['m', 'a', 'x'] + (between + text::decimal(period))) + after)
            ==> probe::limits_of(r, cores).cpu_threads == probe::limits_of(
            ReadingsView { unified_cpu: None, ..r },
            cores,
        ).cpu_threads,
        r.unified_cpu is None && quota > 0 && r.split_quota == Some(before + (seq!['-'] + text::decimal(quota)) + after)
            ==> probe::limits_of(r, cores).cpu_threads == cores,
        r.unified_cpu is None && holds_number(r.split_quota, quota) && holds_number(r.split_period, period) && (period
            == 0 || quota / period > u32::MAX) ==> probe::limits_of(r, cores).cpu_threads == cores,
{
    let d = text::decimal(period);
    scan::law_decimal_form_is_read_back(period);
    scan::law_decimal_form_is_read_back(quota);
    scan::law_numbers_are_read(quota, u64::MAX as nat, text::decimal(quota));
    scan::law_numbers_are_read(period, u64::MAX as nat, text::decimal(period));
    scan::law_signed_numbers_are_read(quota);
    lemma_max();
    let none = Seq::<char>::empty();
    if holds_numbers(r.unified_cpu, quota, period) {
        lemma_numbers_count(r.unified_cpu, quota, period);
    }
    let mx = seq!['m', 'a', 'x'];
    let core = mx + (between + d);
    assert(core[0] == 'm');
    assert(core.last() == d.last());
    scan::law_trimming_takes_what_is_round(before, core, after);
    assert(none + mx + (between + d) =~= core);
    assert((between + d)[0] == between[0]);
    scan::law_a_word_ends_at_white_space(none, mx, between + d);
    let minus = seq!['-'] + text::decimal(quota);
    assert(minus[0] == '-');
    assert(minus.last() == text::decimal(quota).last());
    scan::law_trimming_takes_what_is_round(before, minus, after);
    if holds_number(r.split_quota, quota) {
        lemma_number_counts(r.split_quota, quota);
    }
    if holds_number(r.split_period, period) {
        lemma_number_counts(r.split_period, period);
    }
}

/// Whether no line of a text begins with the label of the host's total.
pub open spec fn names_no_total(lines: Seq<char>) -> bool {
    forall|i: int|
        0 <= i < lines.len() && (i == 0 || lines[i - 1] == '\n') ==> !"MemTotal:"@.is_prefix_of(#[trigger] lines.skip(i))
}

/// What the host reports is counted in units of 1024 bytes, from the first line that
/// begins with the label of the total, whatever lines come before it and whatever follows
/// the number. Where nothing is reported, or more than can be counted, it is taken to be one
/// gibibyte.
pub proof fn law_the_host_reports_its_total(
    reading: Option<Seq<char>>,
    lines: Seq<char>,
    pad: Seq<char>,
    n: nat,
    rest: Seq<char>,
)
    requires
        scan::blank(pad),
        forall|i: int| 0 <= i < pad.len() ==> #[trigger] pad[i] != '\n',
        rest.len() > 0 ==> scan::is_space(rest[0]),
        lines.len() > 0 ==> lines.last() == '\n' && !scan::is_space(lines[0]),
        names_no_total(lines),
    ensures
        reading == Some(lines + ("MemTotal:"@ + (pad + (text::decimal(n) + rest)))) ==> probe::host_memory(reading) == (
        if n * 1024 <= u64::MAX {
            n * 1024
        } else {
            1_073_741_824
        }),
        reading is None ==> probe::host_memory(reading) == 1_073_741_824,
{
    if reading == Some(lines + ("MemTotal:"@ + (pad + (text::decimal(n) + rest)))) {
        let d = text::decimal(n);
        scan::law_decimal_form_is_read_back(n);
        let left = lemma_total_counts(reading, lines, pad, d, rest);
        lemma_labelled(lines, pad, d, left);
        scan::law_numbers_are_read(n, u64::MAX as nat, d);
        lemma_line_bounds(left);
        let tail = left.take(scan::line_len(left) as int);
        assert(tail.len() > 0 ==> tail[0] == left[0]);
        assert(pad + d + tail =~= pad + (d + tail));
        scan::law_a_word_ends_at_white_space(pad, d, tail);
    }
}

/// What counts of the report: all of it, but for white space at its end.
proof fn lemma_total_counts(
    reading: Option<Seq<char>>,
    lines: Seq<char>,
    pad: Seq<char>,
    d: Seq<char>,
    rest: Seq<char>,
) -> (left: Seq<char>)
    requires
        scan::bare(d),
        rest.len() > 0 ==> scan::is_space(rest[0]),
        lines.len() > 0 ==> !scan::is_space(lines[0]),
        reading == Some(lines + ("MemTotal:"@ + (pad + (d + rest)))),
    ensures
        probe::counted(reading) == Some(lines + (probe::TOTAL_LABEL@ + (pad + (d + left)))),
        left.len() > 0 ==> scan::is_space(left[0]),
{
    reveal_strlit("MemTotal:");
    let label = probe::TOTAL_LABEL@;
    let head = lines + (label + (pad + d));
    assert(lines + (label + (pad + (d + rest))) =~= head + rest);
    assert(head.last() == d.last());
    if lines.len() > 0 {
        assert(head[0] == lines[0]);
    } else {
        assert(head[0] == label[0]);
    }
    let left = lemma_trim_end_keeps(head, rest);
    assert((head + rest)[0] == head[0]);
    assert(scan::trim_start(head + rest) == head + rest);
    assert(head + left =~= lines + (label + (pad + (d + left))));
    left
}

proof fn lemma_line_bounds(s: Seq<char>)
    ensures
        scan::line_len(s) <= s.len(),
        forall|i: int| 0 <= i < scan::line_len(s) ==> #[trigger] s[i] != '\n',
        scan::line_len(s) < s.len() ==> s[scan::line_len(s) as int] == '\n',
    decreases s.len(),
{
    if s.len() > 0 && s[0] != '\n' {
        let rest = s.drop_first();
        lemma_line_bounds(rest);
        assert forall|i: int| 0 <= i < scan::line_len(s) implies #[trigger] s[i] != '\n' by {
            if i > 0 {
                assert(rest[i - 1] == s[i]);
            }
        }
        if scan::line_len(s) < s.len() {
            assert(rest[scan::line_len(rest) as int] == s[scan::line_len(s) as int]);
        }
    }
}

proof fn lemma_trim_end_keeps(head: Seq<char>, rest: Seq<char>) -> (left: Seq<char>)
    requires
        head.len() > 0,
        !scan::is_space(head.last()),
        rest.len() > 0 ==> scan::is_space(rest[0]),
    ensures
        scan::trim_end(head + rest) == head + left,
        left.len() > 0 ==> scan::is_space(left[0]),
    decreases rest.len(),
{
    if rest.len() == 0 {
        assert(head + rest =~= head);
        assert(head + Seq::<char>::empty() =~= head);
        Seq::empty()
    } else if scan::is_space(rest.last()) {
        assert((head + rest).last() == rest.last());
        assert((head + rest).drop_last() =~= head + rest.drop_last());
        assert(rest.drop_last().len() > 0 ==> rest.drop_last()[0] == rest[0]);
        lemma_trim_end_keeps(head, rest.drop_last())
    } else {
        assert((head + rest).last() == rest.last());
        rest
    }
}

proof fn lemma_labelled(lines: Seq<char>, pad: Seq<char>, d: Seq<char>, left: Seq<char>)
    requires
        forall|i: int| 0 <= i < pad.len() ==> #[trigger] pad[i] != '\n',
        forall|i: int| 0 <= i < d.len() ==> !scan::is_space(#[trigger] d[i]),
        lines.len() > 0 ==> lines.last() == '\n',
        names_no_total(lines),
    ensures
        probe::labelled(lines + (probe::TOTAL_LABEL@ + (pad + (d + left))), probe::TOTAL_LABEL@) == Some(
            pad + (d + left.take(scan::line_len(left) as int)),
        ),
    decreases lines.len(),
{
    reveal_strlit("MemTotal:");
    let label = probe::TOTAL_LABEL@;
    let own = label + (pad + (d + left));
    let s = lines + own;
    if lines.len() == 0 {
        assert(s =~= own);
        lemma_line_bounds(left);
        let k = scan::line_len(left) as int;
        let line = label + (pad + (d + left.take(k)));
        let rest = left.skip(k);
        assert(s =~= line + rest);
        assert forall|i: int| 0 <= i < line.len() implies #[trigger] line[i] != '\n' by {
            if i >= label.len() {
                let j = i - label.len();
                if j < pad.len() {
                    assert(line[i] == pad[j]);
                } else if j < pad.len() + d.len() {
                    assert(line[i] == d[j - pad.len()]);
                } else {
                    assert(line[i] == left[j - pad.len() - d.len()]);
                }
            }
        }
        assert(rest.len() > 0 ==> rest[0] == left[k]);
        scan::law_a_line_ends_at_its_break(line, rest);
        let n = line.len() as int;
        assert(s.take(n) =~= line);
        assert(line.subrange(0, label.len() as int) =~= label);
        assert(line.skip(label.len() as int) =~= pad + (d + left.take(k)));
    } else {
        lemma_line_bounds(s);
        let n = scan::line_len(s) as int;
        lemma_first_break(s, lines.len() - 1);
        assert(s[lines.len() - 1] == '\n');
        assert(n < lines.len());
        assert(!label.is_prefix_of(s.take(n))) by {
            if label.is_prefix_of(s.take(n)) {
                assert(lines.skip(0) =~= lines);
                assert(lines.subrange(0, label.len() as int) =~= s.take(n).subrange(0, label.len() as int));
            }
        }
        let fewer = lines.skip(n + 1);
        assert(s.skip(n + 1) =~= fewer + own);
        assert(fewer.len() > 0 ==> fewer.last() == lines.last());
        assert forall|i: int| 0 <= i < fewer.len() && (i == 0 || fewer[i - 1] == '\n') implies !"MemTotal:"@.is_prefix_of(
            #[trigger] fewer.skip(i),
        ) by {
            assert(fewer.skip(i) =~= lines.skip(i + n + 1));
            if i == 0 {
                assert(lines[n] == s[n]);
            } else {
                assert(fewer[i - 1] == lines[i + n]);
            }
        }
        lemma_labelled(fewer, pad, d, left);
    }
}

proof fn lemma_first_break(s: Seq<char>, k: int)
    requires
        0 <= k < s.len(),
        s[k] == '\n',
    ensures
        scan::line_len(s) <= k,
    decreases k,
{
    if s[0] != '\n' {
        assert(s.drop_first()[k - 1] == s[k]);
        lemma_first_break(s.drop_first(), k - 1);
    }
}

/// Pools that are not pinned get all that is kept of the limits, or one unit where nothing
/// is kept, both pools of threads the same; and memory always constrains.
pub proof fn law_pools_get_what_is_kept(kept: RawLimits, pins: PinnedPools)
    ensures
        probe::sized(kept, pins).memory_constrained,
        pins.memory is None && kept.memory_bytes > 0 ==> probe::sized(kept, pins).memory == kept.memory_bytes,
        pins.memory is None && kept.memory_bytes == 0 ==> probe::sized(kept, pins).memory == 1,
        pins.blocking_threads is None && kept.cpu_threads > 0 ==> probe::sized(kept, pins).blocking_threads
            == kept.cpu_threads,
        pins.compute_threads is None && kept.cpu_threads > 0 ==> probe::sized(kept, pins).compute_threads
            == kept.cpu_threads,
        pins.blocking_threads is None && kept.cpu_threads == 0 ==> probe::sized(kept, pins).blocking_threads == 1,
        pins.compute_threads is None && kept.cpu_threads == 0 ==> probe::sized(kept, pins).compute_threads == 1,
{
}

/// A flag whose value is a number that the pool can have, with any white space round it,
/// sets that pool to it; a larger number is refused, and so is any other key.
pub proof fn law_a_flag_sets_its_pool(pins: PinnedPools, key: Seq<char>, before: Seq<char>, n: nat, after: Seq<char>)
    requires
        scan::blank(before),
        scan::blank(after),
    ensures
        ({
            let value = before + text::decimal(n) + after;
            let said = pins::flagged(pins, key, value);
            &&& key == "dagr.pool.memory"@ && n <= u64::MAX ==> said == Ok::<PinnedPools, Seq<char>>(
                PinnedPools { memory: Some(n as u64), ..pins },
            )
            &&& key == "dagr.pool.blocking-threads"@ && n <= u32::MAX ==> said == Ok::<PinnedPools, Seq<char>>(
                PinnedPools { blocking_threads: Some(n as u32), ..pins },
            )
            &&& key == "dagr.pool.compute-threads"@ && n <= u32::MAX ==> said == Ok::<PinnedPools, Seq<char>>(
                PinnedPools { compute_threads: Some(n as u32), ..pins },
            )
            &&& key == "dagr.pool.memory"@ && n > u64::MAX ==> said is Err
            &&& (key == "dagr.pool.blocking-threads"@ || key == "dagr.pool.compute-threads"@) && n > u32::MAX ==> said is Err
            &&& key != "dagr.pool.memory"@ && key != "dagr.pool.blocking-threads"@ && key
                != "dagr.pool.compute-threads"@ ==> said is Err
        }),
{
    let d = text::decimal(n);
    scan::law_decimal_form_is_read_back(n);
    scan::law_trimming_takes_what_is_round(before, d, after);
    scan::law_numbers_are_read(n, u64::MAX as nat, d);
    scan::law_numbers_are_read(n, u32::MAX as nat, d);
    reveal_strlit("dagr.pool.");
    reveal_strlit("dagr.pool.memory");
    reveal_strlit("dagr.pool.blocking-threads");
    reveal_strlit("dagr.pool.compute-threads");
    let p = pins::RESERVED_PREFIX@;
    assert("dagr.pool.memory"@.subrange(0, 10) =~= p);
    assert("dagr.pool.blocking-threads"@.subrange(0, 10) =~= p);
    assert("dagr.pool.compute-threads"@.subrange(0, 10) =~= p);
    assert("dagr.pool.memory"@[10] != "dagr.pool.blocking-threads"@[10]);
    assert("dagr.pool.memory"@[10] != "dagr.pool.compute-threads"@[10]);
    assert("dagr.pool.blocking-threads"@[10] != "dagr.pool.compute-threads"@[10]);
}

/// A value that is not a number sets nothing.
pub proof fn law_a_flag_without_a_number_is_refused(pins: PinnedPools, key: Seq<char>, value: Seq<char>, i: int)
    requires
        scan::bare(value),
        0 <= i < value.len(),
        !('0' <= value[i] <= '9'),
        i > 0 || value[0] != '+' || value.len() == 1,
    ensures
        pins::flagged(pins, key, value) is Err,
{
    let none = Seq::<char>::empty();
    assert(none + value + none =~= value);
    scan::law_trimming_takes_what_is_round(none, value, none);
    scan::law_numbers_are_read(0, u64::MAX as nat, value);
    scan::law_numbers_are_read(0, u32::MAX as nat, value);
}

/// A flag sets at most its own pool, and one that is refused sets none.
pub proof fn law_a_flag_sets_one_pool(before: PinnedPools, key: Seq<char>, value: Seq<char>)
    ensures
        pins::flagged(before, key, value) matches Ok(after) ==> {
            &&& pins::RESERVED_PREFIX@.is_prefix_of(key)
            &&& key != pins::KEY_MEMORY@ ==> after.memory == before.memory
            &&& key != pins::KEY_BLOCKING@ ==> after.blocking_threads == before.blocking_threads
            &&& key != pins::KEY_COMPUTE@ ==> after.compute_threads == before.compute_threads
        },
{
}

/// The errors are complete and no more: each names a node and a pool of which it declares
/// more than there is, and each such node and pool is named.
pub proof fn law_every_overrun_is_reported(caps: PoolCapacities, costs: Seq<(Seq<char>, PoolCost)>, e: ErrorView)
    ensures
        capacity::errors_of(caps, costs).contains(e) == (e.capacity == caps.total_spec(e.pool) && e.declared_cost
            > e.capacity && exists|i: int|
            0 <= i < costs.len() && (#[trigger] costs[i]).0 == e.node && costs[i].1.demand(e.pool) == e.declared_cost),
    decreases costs.len(),
{
    let all = capacity::errors_of(caps, costs);
    if costs.len() > 0 {
        let shorter = costs.drop_last();
        let (node, cost) = costs.last();
        let mine = capacity::errors_of_node(caps, node, cost);
        law_every_overrun_is_reported(caps, shorter, e);
        lemma_node_errors(caps, node, cost, e);
        let first = capacity::errors_of(caps, shorter);
        assert(all == first + mine);
        if all.contains(e) {
            let k = choose|k: int| 0 <= k < all.len() && all[k] == e;
            if k < first.len() {
                assert(first[k] == e);
                let i = choose|i: int|
                    0 <= i < shorter.len() && (#[trigger] shorter[i]).0 == e.node && shorter[i].1.demand(e.pool)
                        == e.declared_cost;
                assert(costs[i] == shorter[i]);
            } else {
                assert(mine[k - first.len()] == e);
                assert(costs[costs.len() - 1] == (node, cost));
            }
        }
        if first.contains(e) {
            let k = choose|k: int| 0 <= k < first.len() && first[k] == e;
            assert(all[k] == e);
        }
        if mine.contains(e) {
            let k = choose|k: int| 0 <= k < mine.len() && mine[k] == e;
            assert(all[first.len() + k] == e);
        }
        if exists|i: int|
            0 <= i < costs.len() && (#[trigger] costs[i]).0 == e.node && costs[i].1.demand(e.pool) == e.declared_cost {
            let i = choose|i: int|
                0 <= i < costs.len() && (#[trigger] costs[i]).0 == e.node && costs[i].1.demand(e.pool) == e.declared_cost;
            if i < shorter.len() {
                assert(shorter[i] == costs[i]);
            }
        }
    }
}

proof fn lemma_node_errors(caps: PoolCapacities, node: Seq<char>, cost: PoolCost, e: ErrorView)
    ensures
        capacity::errors_of_node(caps, node, cost).contains(e) == (e.node == node && e.capacity == caps.total_spec(e.pool)
            && e.declared_cost == cost.demand(e.pool) && e.declared_cost > e.capacity),
{
    let a = capacity::error_on(caps, node, cost, Pool::Memory);
    let b = capacity::error_on(caps, node, cost, Pool::BlockingThreads);
    let c = capacity::error_on(caps, node, cost, Pool::ComputeThreads);
    let all = capacity::errors_of_node(caps, node, cost);
    if all.contains(e) {
        let k = choose|k: int| 0 <= k < all.len() && all[k] == e;
        assert(k < a.len() || k < (a + b).len() || k < all.len());
    }
    if e.node == node && e.capacity == caps.total_spec(e.pool) && e.declared_cost == cost.demand(e.pool) && e.declared_cost
        > e.capacity {
        match e.pool {
            Pool::Memory => {
                assert(all[0] =~= e);
            },
            Pool::BlockingThreads => {
                assert(all[a.len() as int] =~= e);
            },
            Pool::ComputeThreads => {
                assert(all[(a + b).len() as int] =~= e);
            },
        }
    }
}

/// A node that declares exactly what each pool has, or less, is never refused; bootstrap
/// fails just where some node declares more of some pool.
pub proof fn law_only_what_exceeds_is_refused(caps: PoolCapacities, costs: Seq<(Seq<char>, PoolCost)>)
    ensures
        (capacity::errors_of(caps, costs).len() == 0) == (forall|i: int, pool: Pool|
            0 <= i < costs.len() ==> #[trigger] costs[i].1.demand(pool) <= caps.total_spec(pool)),
{
    let all = capacity::errors_of(caps, costs);
    if all.len() == 0 {
        assert forall|i: int, pool: Pool| 0 <= i < costs.len() implies #[trigger] costs[i].1.demand(pool)
            <= caps.total_spec(pool) by {
            if costs[i].1.demand(pool) > caps.total_spec(pool) {
                let e = ErrorView {
                    node: costs[i].0,
                    pool,
                    declared_cost: costs[i].1.demand(pool),
                    capacity: caps.total_spec(pool),
                };
                law_every_overrun_is_reported(caps, costs, e);
                assert(all.contains(e));
            }
        }
    } else {
        let e = all[0];
        assert(all.contains(e));
        law_every_overrun_is_reported(caps, costs, e);
        let i = choose|i: int|
            0 <= i < costs.len() && (#[trigger] costs[i]).0 == e.node && costs[i].1.demand(e.pool) == e.declared_cost;
        assert(costs[i].1.demand(e.pool) > caps.total_spec(e.pool));
    }
}

/// A memory limit that is no number of 64 bits is passed over, as if its file were not
/// there; so is a file that holds nothing but white space.
pub proof fn law_what_is_no_number_is_passed_over(
    r: ReadingsView,
    cores: u32,
    before: Seq<char>,
    word: Seq<char>,
    after: Seq<char>,
    i: int,
    n: nat,
)
    requires
        scan::blank(before),
        scan::blank(after),
        scan::bare(word),
        0 <= i < word.len(),
        !('0' <= word[i] <= '9'),
        i > 0 || word[0] != '+' || word.len() == 1,
        n > u64::MAX,
    ensures
        ({
            let passed = probe::limits_of(ReadingsView { unified_memory: None, ..r }, cores).memory_bytes;
            &&& r.unified_memory == Some(before + word + after) ==> probe::limits_of(r, cores).memory_bytes == passed
            &&& r.unified_memory == Some(before) ==> probe::limits_of(r, cores).memory_bytes == passed
            &&& holds_number(r.unified_memory, n) ==> probe::limits_of(r, cores).memory_bytes == passed
        }),
        ({
            let passed = probe::limits_of(ReadingsView { split_memory: None, ..r }, cores).memory_bytes;
            &&& r.split_memory == Some(before + word + after) ==> probe::limits_of(r, cores).memory_bytes == passed
            &&& r.split_memory == Some(before) ==> probe::limits_of(r, cores).memory_bytes == passed
            &&& holds_number(r.split_memory, n) ==> probe::limits_of(r, cores).memory_bytes == passed
        }),
{
    scan::law_trimming_takes_what_is_round(before, word, after);
    scan::law_numbers_are_read(0, u64::MAX as nat, word);
    if holds_number(r.unified_memory, n) {
        lemma_number_counts(r.unified_memory, n);
    }
    if holds_number(r.split_memory, n) {
        lemma_number_counts(r.split_memory, n);
    }
}

/// A host that reports nothing that counts is taken to have one gibibyte.
pub proof fn law_a_silent_host_has_a_gibibyte(reading: Option<Seq<char>>, blank: Seq<char>)
    requires
        scan::blank(blank),
    ensures
        reading is None ==> probe::host_memory(reading) == 1_073_741_824,
        reading == Some(blank) ==> probe::host_memory(reading) == 1_073_741_824,
{
    reveal_strlit("max");
    scan::law_trimming_takes_what_is_round(blank, "max"@, blank);
}

/// Each node is held against memory, the blocking threads and the compute threads, in this
/// order, and its errors come after those of the nodes before it. An error says what the
/// node declares and what the pool has.
pub proof fn law_errors_come_node_by_node(
    caps: PoolCapacities,
    costs: Seq<(Seq<char>, PoolCost)>,
    node: Seq<char>,
    cost: PoolCost,
)
    ensures
        ({
            let before = capacity::errors_of(caps, costs);
            let after = capacity::errors_of(caps, costs.push((node, cost)));
            let memory = if cost.working_memory > caps.memory {
                seq![
                    ErrorView { node, pool: Pool::Memory, declared_cost: cost.working_memory, capacity: caps.memory },
                ]
            } else {
                seq![]
            };
            let blocking = if cost.blocking_threads > caps.blocking_threads {
                seq![
                    ErrorView {
                        node,
                        pool: Pool::BlockingThreads,
                        declared_cost: cost.blocking_threads as u64,
                        capacity: caps.blocking_threads as u64,
                    },
                ]
            } else {
                seq![]
            };
            let compute = if cost.compute_threads > caps.compute_threads {
                seq![
                    ErrorView {
                        node,
                        pool: Pool::ComputeThreads,
                        declared_cost: cost.compute_threads as u64,
                        capacity: caps.compute_threads as u64,
                    },
                ]
            } else {
                seq![]
            };
            after == before + memory + blocking + compute
        }),
        capacity::errors_of(caps, Seq::empty()).len() == 0,
{
    assert(costs.push((node, cost)).drop_last() =~= costs);
    assert(capacity::errors_of(caps, costs.push((node, cost))) =~= capacity::errors_of(caps, costs)
        + capacity::error_on(caps, node, cost, Pool::Memory) + capacity::error_on(
        caps,
        node,
        cost,
        Pool::BlockingThreads,
    ) + capacity::error_on(caps, node, cost, Pool::ComputeThreads));
}

/// The errors of a node are those that name it, in their order.
pub proof fn law_errors_are_found_by_node(errors: Seq<ErrorView>, e: ErrorView, node: Seq<char>)
    ensures
        capacity::errors_at(Seq::empty(), node).len() == 0,
        e.node == node ==> capacity::errors_at(errors.push(e), node) == capacity::errors_at(errors, node).push(e),
        e.node != node ==> capacity::errors_at(errors.push(e), node) == capacity::errors_at(errors, node),
{
    reveal(Seq::filter);
    assert(errors.push(e).drop_last() =~= errors);
}

/// An error names its node, what it declares, the pool and what the pool has; errors stand
/// behind each other, each after a semicolon.
pub proof fn law_errors_say_what_exceeds(errors: Seq<ErrorView>, e: ErrorView)
    ensures
        capacity::each_rendered(errors.push(e)) == capacity::each_rendered(errors) + "; "@ + e.rendered(),
        capacity::each_rendered(Seq::empty()).len() == 0,
        e.pool == Pool::Memory ==> e.rendered() == "node `"@ + e.node + "` declares "@ + text::decimal(
            e.declared_cost as nat,
        ) + " "@ + "bytes"@ + " for the "@ + "Memory"@ + " pool, which exceeds its total capacity "@ + text::decimal(
            e.capacity as nat,
        ) + " "@ + "bytes"@,
        e.pool == Pool::BlockingThreads ==> e.rendered() == "node `"@ + e.node + "` declares "@ + text::decimal(
            e.declared_cost as nat,
        ) + " "@ + "threads"@ + " for the "@ + "BlockingThreads"@ + " pool, which exceeds its total capacity "@
            + text::decimal(e.capacity as nat) + " "@ + "threads"@,
        e.pool == Pool::ComputeThreads ==> e.rendered() == "node `"@ + e.node + "` declares "@ + text::decimal(
            e.declared_cost as nat,
        ) + " "@ + "threads"@ + " for the "@ + "ComputeThreads"@ + " pool, which exceeds its total capacity "@
            + text::decimal(e.capacity as nat) + " "@ + "threads"@,
{
    assert(errors.push(e).drop_last() =~= errors);
}

/// A flag that is refused is told why: its key is none of the framework's, or names no
/// pool, or its value is no number that the pool can have. Without flags no pool is set.
pub proof fn law_a_refused_flag_is_told_why(pins: PinnedPools, key: Seq<char>, value: Seq<char>, why: Seq<char>)
    requires
        pins::flagged(pins, key, value) == Err::<PinnedPools, Seq<char>>(why),
    ensures
        !"dagr.pool."@.is_prefix_of(key) ==> why == "pinning key `"@ + key + "` is outside the reserved `"@
            + "dagr.pool."@ + "` namespace; only framework-reserved `dagr.`-prefixed pool keys may pin capacity"@,
        key == "dagr.pool.memory"@ || key == "dagr.pool.blocking-threads"@ || key == "dagr.pool.compute-threads"@ ==> why
            == "pinning value for `"@ + key + "` is not a non-negative integer: `"@ + value + "`"@,
        "dagr.pool."@.is_prefix_of(key) && key != "dagr.pool.memory"@ && key != "dagr.pool.blocking-threads"@ && key
            != "dagr.pool.compute-threads"@ ==> why == "pinning key `"@ + key
            + "` is in the reserved namespace but is not a known pool key ("@ + "dagr.pool.memory"@ + ", "@
            + "dagr.pool.blocking-threads"@ + ", "@ + "dagr.pool.compute-threads"@ + ")"@,
        PinnedPools::none().memory is None,
        PinnedPools::none().blocking_threads is None,
        PinnedPools::none().compute_threads is None,
{
    reveal_strlit("dagr.pool.");
    reveal_strlit("dagr.pool.memory");
    reveal_strlit("dagr.pool.blocking-threads");
    reveal_strlit("dagr.pool.compute-threads");
    let p = "dagr.pool."@;
    assert("dagr.pool.memory"@.subrange(0, 10) =~= p);
    assert("dagr.pool.blocking-threads"@.subrange(0, 10) =~= p);
    assert("dagr.pool.compute-threads"@.subrange(0, 10) =~= p);
}

/// A report without a line that begins with the label of the total counts for nothing: the
/// host is taken to have one gibibyte.
pub proof fn law_a_report_without_a_total_counts_for_nothing(report: Seq<char>)
    requires
        scan::bare(report),
        names_no_total(report),
    ensures
        probe::host_memory(Some(report)) == 1_073_741_824,
{
    let none = Seq::<char>::empty();
    assert(none + report + none =~= report);
    scan::law_trimming_takes_what_is_round(none, report, none);
    lemma_no_total(report);
}

proof fn lemma_no_total(s: Seq<char>)
    requires
        names_no_total(s),
    ensures
        probe::labelled(s, "MemTotal:"@) is None,
    decreases s.len(),
{
    let label = "MemTotal:"@;
    let n = scan::line_len(s) as int;
    reveal_strlit("MemTotal:");
    lemma_line_bounds(s);
    if n <= s.len() {
        if label.is_prefix_of(s.take(n)) {
            assert(s.skip(0) =~= s);
            assert(s.subrange(0, label.len() as int) =~= s.take(n).subrange(0, label.len() as int));
            assert(label.is_prefix_of(s.skip(0)));
        } else if n < s.len() {
            let rest = s.skip(n + 1);
            assert forall|i: int| 0 <= i < rest.len() && (i == 0 || rest[i - 1] == '\n') implies !label.is_prefix_of(
                #[trigger] rest.skip(i),
            ) by {
                assert(rest.skip(i) =~= s.skip(n + 1 + i));
                if i > 0 {
                    assert(s[n + i] == rest[i - 1]);
                }
            }
            lemma_no_total(rest);
        }
    }
}

/// Of the unified hierarchy's processor limit the first two words count, whatever follows
/// them.
pub proof fn law_the_first_two_words_are_the_quota(
    r: ReadingsView,
    cores: u32,
    quota: u64,
    between: Seq<char>,
    period: u64,
    tail: Seq<char>,
)
    requires
        period > 0,
        quota / period <= u32::MAX,
        scan::blank(between),
        between.len() > 0,
        tail.len() > 0 ==> scan::is_space(tail[0]) && !scan::is_space(tail.last()),
        r.unified_cpu == Some(text::decimal(quota as nat) + (between + (text::decimal(period as nat) + tail))),
    ensures
        probe::limits_of(r, cores).cpu_threads == quota / period,
{
    let q = text::decimal(quota as nat);
    let p = text::decimal(period as nat);
    let none = Seq::<char>::empty();
    let report = q + (between + (p + tail));
    scan::law_decimal_form_is_read_back(quota as nat);
    scan::law_decimal_form_is_read_back(period as nat);
    scan::law_numbers_are_read(quota as nat, u64::MAX as nat, q);
    scan::law_numbers_are_read(period as nat, u64::MAX as nat, p);
    assert(report[0] == q[0]);
    assert(report.last() == (if tail.len() > 0 {
        tail.last()
    } else {
        p.last()
    }));
    assert(none + report + none =~= report);
    scan::law_trimming_takes_what_is_round(none, report, none);
    let rest = between + (p + tail);
    assert(rest[0] == between[0]);
    assert(none + q + rest =~= report);
    scan::law_a_word_ends_at_white_space(none, q, rest);
    assert(between + p + tail =~= rest);
    scan::law_a_word_ends_at_white_space(between, p, tail);
    lemma_max();
    assert(scan::is_digit(q[0]));
}

} // verus!
