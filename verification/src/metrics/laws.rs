//! What holds of the metrics of every attempt.

use super::account::ThreadAccount;
use super::{MetricsView, MAX_ENCODED_BYTES, MAX_ENTRIES};
use crate::metrics;
use crate::names;
use crate::text;
use vstd::prelude::*;
use vstd::utf8::*;

verus! {

/// What is kept fits both caps, and it is not cut short of them: either everything is
/// kept, or one entry more would exceed a cap.
pub proof fn law_what_is_kept_fits<V>(entries: Seq<(Seq<char>, V)>)
    ensures
        ({
            let kept = metrics::kept_count(entries) as int;
            &&& kept <= entries.len()
            &&& kept <= MAX_ENTRIES
            &&& metrics::encoded(entries.take(kept)) <= MAX_ENCODED_BYTES
            &&& kept == entries.len() || kept == MAX_ENTRIES || metrics::encoded(entries.take(kept + 1))
                > MAX_ENCODED_BYTES
        }),
    decreases entries.len(),
{
    if entries.len() > 0 {
        let before = entries.drop_last();
        law_what_is_kept_fits(before);
        let k = metrics::kept_count(before) as int;
        assert(entries.take(k) =~= before.take(k));
        if k < before.len() {
            assert(entries.take(k + 1) =~= before.take(k + 1));
        } else {
            assert(entries.take(k + 1) =~= entries);
        }
        assert(entries.take(entries.len() as int) =~= entries);
    } else {
        assert(entries.take(0) =~= entries);
    }
}

/// Every name that is kept comes before every name that is dropped.
pub proof fn law_the_smallest_names_are_kept(view: MetricsView, kept: Seq<char>, dropped: Seq<char>)
    requires
        !view.finalized,
        names::has_order(view.task),
        view.closed().task.dom().contains(kept),
        view.task.dom().contains(dropped),
        !view.closed().task.dom().contains(dropped),
    ensures
        text::name_lt(kept, dropped),
{
    let entries = names::ordered(view.task);
    let n = metrics::kept_count(entries) as int;
    law_what_is_kept_fits(entries);
    let some = entries.take(n);
    assert(names::has_name(some, kept));
    let a = names::position_of(some, kept);
    assert(entries[a].0 == kept);
    assert(names::has_name(entries, dropped));
    let b = names::position_of(entries, dropped);
    if b < n {
        assert(some[b].0 == dropped);
        assert(names::has_name(some, dropped));
    }
    assert(text::name_lt(entries[a].0, entries[b].0));
}

/// What is kept has the number that was attached, and nothing is kept that was not
/// attached.
pub proof fn law_what_is_kept_is_unchanged(view: MetricsView, name: Seq<char>)
    requires
        names::has_order(view.task),
        view.closed().task.dom().contains(name),
    ensures
        view.task.dom().contains(name),
        view.closed().task[name] == view.task[name],
{
    if !view.finalized {
        let entries = names::ordered(view.task);
        let n = metrics::kept_count(entries) as int;
        law_what_is_kept_fits(entries);
        let some = entries.take(n);
        assert(names::has_name(some, name));
        let a = names::position_of(some, name);
        assert(entries[a].0 == name);
        assert(names::in_name_order(some)) by {
            assert forall|i: int, j: int| 0 <= i < j < some.len() implies text::name_lt(
                #[trigger] some[i].0,
                #[trigger] some[j].0,
            ) by {
                assert(text::name_lt(entries[i].0, entries[j].0));
            }
        }
        names::lemma_entry(some, a);
        names::lemma_entry(entries, a);
    }
}

/// Closing the set twice is closing it once.
pub proof fn law_closing_is_idempotent(view: MetricsView)
    ensures
        view.closed().closed() == view.closed(),
{
}

/// The order in which metrics of different names are attached makes no difference, to the
/// set or to what is kept of it.
pub proof fn law_attach_order_is_invisible(
    view: MetricsView,
    a: Seq<char>,
    x: metrics::MetricValue,
    b: Seq<char>,
    y: metrics::MetricValue,
)
    requires
        a != b,
    ensures
        ({
            let one = MetricsView { task: view.task.insert(a, x).insert(b, y), ..view };
            let other = MetricsView { task: view.task.insert(b, y).insert(a, x), ..view };
            one == other && one.closed() == other.closed()
        }),
{
    assert(view.task.insert(a, x).insert(b, y) =~= view.task.insert(b, y).insert(a, x));
}

/// What the framework records is never dropped, and closing the set adds to the task's
/// metrics nothing that counts against the caps.
pub proof fn law_framework_metrics_stay(view: MetricsView, name: Seq<char>)
    requires
        view.framework.dom().contains(name),
    ensures
        view.closed().framework.dom().contains(name),
        name != metrics::METRIC_TRUNCATED@ && name != metrics::METRIC_TRUNCATED_DROPPED_ENTRIES@ && name
            != metrics::METRIC_TRUNCATED_DROPPED_BYTES@ ==> view.closed().framework[name] == view.framework[name],
{
}

/// No name is both the task's and the framework's, so that no metric hides another.
pub proof fn law_names_do_not_collide(view: MetricsView, name: Seq<char>)
    requires
        view.wf(),
    ensures
        !(view.task.dom().contains(name) && view.framework.dom().contains(name)),
        view.task.dom().contains(name) ==> view.all()[name] == view.task[name],
        view.framework.dom().contains(name) ==> view.all()[name] == view.framework[name],
{
}

/// Something that happens to memory while an attempt runs.
pub enum MemoryEvent {
    Allocated(usize),
    Freed(usize),
    Resized(usize, usize),
}

/// The account after one thing has happened.
pub open spec fn step(account: ThreadAccount, event: MemoryEvent) -> ThreadAccount {
    match event {
        MemoryEvent::Allocated(size) => account.allocated(size),
        MemoryEvent::Freed(size) => account.freed(size),
        MemoryEvent::Resized(old_size, new_size) => account.resized(old_size, new_size),
    }
}

/// The account after things have happened.
pub open spec fn after(account: ThreadAccount, events: Seq<MemoryEvent>) -> ThreadAccount
    decreases events.len(),
{
    if events.len() == 0 {
        account
    } else {
        step(after(account, events.drop_last()), events.last())
    }
}

/// The peak is the most that was held at any point: it covers every point, and at some
/// point exactly as much was held.
pub proof fn law_peak_is_the_high_water_mark(account: ThreadAccount, events: Seq<MemoryEvent>)
    requires
        account.live == account.peak,
        account.depth > 0,
    ensures
        after(account, events).depth == account.depth,
        forall|k: int|
            0 <= k <= events.len() ==> (#[trigger] after(account, events.take(k))).live <= after(account, events).peak,
        exists|k: int|
            0 <= k <= events.len() && (#[trigger] after(account, events.take(k))).live == after(account, events).peak,
    decreases events.len(),
{
    assert(events.take(events.len() as int) =~= events);
    if events.len() == 0 {
        assert(after(account, events.take(0)).live == after(account, events).peak);
    } else {
        let before = events.drop_last();
        law_peak_is_the_high_water_mark(account, before);
        assert forall|k: int| 0 <= k <= events.len() implies (#[trigger] after(account, events.take(k))).live <= after(
            account,
            events,
        ).peak by {
            if k < events.len() {
                assert(before.take(k) =~= events.take(k));
            } else {
                let whole = after(account, before);
                assert(before.take(before.len() as int) =~= before);
                assert(whole.live <= whole.peak);
            }
        }
        let k = choose|k: int|
            0 <= k <= before.len() && (#[trigger] after(account, before.take(k))).live == after(account, before).peak;
        assert(before.take(k) =~= events.take(k));
        assert(after(account, events.take(k)).live == after(account, before).peak);
        assert(after(account, events.take(events.len() as int)) == after(account, events));
    }
}

/// Without an attempt nothing is attributed, whatever happens.
pub proof fn law_nothing_is_attributed_without_an_attempt(events: Seq<MemoryEvent>)
    ensures
        after(ThreadAccount::idle(), events) == ThreadAccount::idle(),
    decreases events.len(),
{
    if events.len() > 0 {
        law_nothing_is_attributed_without_an_attempt(events.drop_last());
    }
}

/// Opening and closing a scope inside another leaves the account as it was, but for what
/// happened in between; closing the outermost leaves nothing.
pub proof fn law_scopes_nest(account: ThreadAccount)
    requires
        account.depth < u32::MAX,
    ensures
        account.depth > 0 ==> account.entered().left() == account,
        account.depth == 0 ==> account.entered().left() == ThreadAccount::idle(),
        account.depth == 0 ==> account.entered().live == 0 && account.entered().peak == 0,
{
}

/// A task keeps at most 128 metrics, which take at most 16384 bytes; each takes the bytes
/// of its name and eight for its number. They are kept from the front, and the first that
/// is dropped would have been the 129th or exceeded the bytes.
pub proof fn law_a_task_keeps_what_the_caps_allow<V>(entries: Seq<(Seq<char>, V)>, name: Seq<char>, value: V)
    ensures
        metrics::encoded(Seq::<(Seq<char>, V)>::empty()) == 0,
        metrics::encoded(entries.push((name, value))) == metrics::encoded(entries) + encode_utf8(name).len() + 8,
        ({
            let kept = metrics::kept_count(entries) as int;
            &&& kept <= entries.len()
            &&& kept <= 128
            &&& metrics::encoded(entries.take(kept)) <= 16_384
            &&& kept < entries.len() && kept < 128 ==> metrics::encoded(entries.take(kept)) + encode_utf8(
                entries[kept].0,
            ).len() + 8 > 16_384
        }),
{
    law_what_is_kept_fits(entries);
    assert(entries.push((name, value)).drop_last() =~= entries);
    let kept = metrics::kept_count(entries) as int;
    if kept < entries.len() {
        assert(entries.take(kept + 1).drop_last() =~= entries.take(kept));
    }
}

proof fn lemma_encoded_adds<V>(a: Seq<(Seq<char>, V)>, b: Seq<(Seq<char>, V)>)
    ensures
        metrics::encoded(a + b) == metrics::encoded(a) + metrics::encoded(b),
    decreases b.len(),
{
    if b.len() == 0 {
        assert(a + b =~= a);
    } else {
        lemma_encoded_adds(a, b.drop_last());
        assert((a + b).drop_last() =~= a + b.drop_last());
    }
}

/// A closed set says whether metrics were dropped and how many; and of how many bytes, where
/// it was for the bytes: where fewer than 128 are kept.
pub proof fn law_a_closed_set_says_what_was_dropped(view: MetricsView)
    requires
        !view.finalized,
    ensures
        ({
            let entries = names::ordered(view.task);
            let kept = metrics::kept_count(entries);
            let after = view.closed();
            let truncated = after.framework["dagr.metrics.truncated_count"@];
            let dropped = after.framework["dagr.metrics.dropped_entries_count"@];
            let bytes = after.framework["dagr.metrics.dropped_bytes_count"@];
            let over = metrics::encoded(entries) - metrics::encoded(entries.take(kept as int));
            &&& after.finalized
            &&& after.framework.dom().contains("dagr.metrics.truncated_count"@)
            &&& after.framework.dom().contains("dagr.metrics.dropped_entries_count"@)
            &&& after.framework.dom().contains("dagr.metrics.dropped_bytes_count"@)
            &&& kept == entries.len() ==> truncated == metrics::MetricValue::Unsigned(0)
            &&& kept < entries.len() ==> truncated == metrics::MetricValue::Unsigned(1)
            &&& entries.len() - kept <= u64::MAX ==> dropped == metrics::MetricValue::Unsigned(
                (entries.len() - kept) as u64,
            )
            &&& kept < 128 && over <= u64::MAX ==> bytes == metrics::MetricValue::Unsigned(over as u64)
            &&& kept >= 128 ==> bytes == metrics::MetricValue::Unsigned(0)
            &&& after.task == names::entries_map(entries.take(kept as int))
        }),
{
    let entries = names::ordered(view.task);
    let kept = metrics::kept_count(entries) as int;
    law_what_is_kept_fits(entries);
    assert(entries =~= entries.take(kept) + entries.skip(kept));
    lemma_encoded_adds(entries.take(kept), entries.skip(kept));
    reveal_strlit("dagr.metrics.truncated_count");
    reveal_strlit("dagr.metrics.dropped_entries_count");
    reveal_strlit("dagr.metrics.dropped_bytes_count");
    assert("dagr.metrics.truncated_count"@.len() == 28);
    assert("dagr.metrics.dropped_entries_count"@.len() == 34);
    assert("dagr.metrics.dropped_bytes_count"@.len() == 32);
}

/// Exactly the names that begin with the framework's prefix are the framework's, among them
/// those of the permits and the phases.
pub proof fn law_the_prefix_is_reserved(name: Seq<char>)
    ensures
        metrics::is_reserved(name) <==> {
            &&& name.len() >= 5
            &&& name[0] == 'd' && name[1] == 'a' && name[2] == 'g' && name[3] == 'r' && name[4] == '.'
        },
        metrics::PERMIT_PREFIX@ == "dagr.permit."@,
        metrics::PHASE_PREFIX@ == "dagr.phase."@,
        metrics::METRIC_PEAK_MEMORY_BYTES@ == "dagr.peak_memory_bytes"@,
{
    reveal_strlit("dagr.");
    let prefix = metrics::RESERVED_PREFIX@;
    if metrics::is_reserved(name) {
        assert(name.subrange(0, 5)[0] == prefix[0]);
        assert(name.subrange(0, 5)[1] == prefix[1]);
        assert(name.subrange(0, 5)[2] == prefix[2]);
        assert(name.subrange(0, 5)[3] == prefix[3]);
        assert(name.subrange(0, 5)[4] == prefix[4]);
    } else if name.len() >= 5 && name[0] == 'd' && name[1] == 'a' && name[2] == 'g' && name[3] == 'r' && name[4]
        == '.' {
        assert(name.subrange(0, 5) =~= prefix);
    }
}

/// What is recorded under a prefix has the prefix before its name, and of one name the last
/// number counts. What has no such name stays as it was.
pub proof fn law_items_are_recorded_under_the_prefix(
    framework: Map<Seq<char>, metrics::MetricValue>,
    prefix: Seq<char>,
    items: Seq<(&str, u64)>,
    i: int,
    name: Seq<char>,
)
    requires
        0 <= i < items.len(),
        forall|j: int| i < j < items.len() ==> (#[trigger] items[j]).0@ != items[i].0@,
        forall|j: int| 0 <= j < items.len() ==> name != prefix + (#[trigger] items[j]).0@,
    ensures
        metrics::recorded(framework, prefix, items).dom().contains(prefix + items[i].0@),
        metrics::recorded(framework, prefix, items)[prefix + items[i].0@] == metrics::MetricValue::Unsigned(items[i].1),
        metrics::recorded(framework, prefix, items).dom().contains(name) == framework.dom().contains(name),
        framework.dom().contains(name) ==> metrics::recorded(framework, prefix, items)[name] == framework[name],
    decreases items.len(),
{
    let n = items.len() as int;
    let front = items.drop_last();
    lemma_others_stay(framework, prefix, items, name);
    if i < n - 1 {
        assert forall|j: int| i < j < front.len() implies (#[trigger] front[j]).0@ != front[i].0@ by {
            assert(items[j].0@ != items[i].0@);
        }
        assert forall|j: int| 0 <= j < front.len() implies name != prefix + (#[trigger] front[j]).0@ by {
            assert(name != prefix + items[j].0@);
        }
        law_items_are_recorded_under_the_prefix(framework, prefix, front, i, name);
        let own = prefix + items[i].0@;
        let last = prefix + items[n - 1].0@;
        assert(items[n - 1].0@ != items[i].0@);
        if own == last {
            let k = prefix.len() as int;
            assert(own.skip(k) =~= items[i].0@);
            assert(last.skip(k) =~= items[n - 1].0@);
        }
        assert(front[i] == items[i]);
    }
}

proof fn lemma_others_stay(
    framework: Map<Seq<char>, metrics::MetricValue>,
    prefix: Seq<char>,
    items: Seq<(&str, u64)>,
    name: Seq<char>,
)
    requires
        forall|j: int| 0 <= j < items.len() ==> name != prefix + (#[trigger] items[j]).0@,
    ensures
        metrics::recorded(framework, prefix, items).dom().contains(name) == framework.dom().contains(name),
        framework.dom().contains(name) ==> metrics::recorded(framework, prefix, items)[name] == framework[name],
    decreases items.len(),
{
    if items.len() > 0 {
        let front = items.drop_last();
        assert forall|j: int| 0 <= j < front.len() implies name != prefix + (#[trigger] front[j]).0@ by {
            assert(name != prefix + items[j].0@);
        }
        lemma_others_stay(framework, prefix, front, name);
        assert(name != prefix + items[items.len() - 1].0@);
    }
}

/// Inside an attempt, what is allocated adds to what is held and what is freed takes from
/// it, within what a number of 64 bits holds; a change of size does whichever it amounts
/// to. The peak follows where more is held than before.
pub proof fn law_the_account_adds_up(account: ThreadAccount, size: usize, other: usize)
    requires
        account.depth > 0,
    ensures
        account.live + size <= u64::MAX ==> account.allocated(size).live == account.live + size,
        account.live + size > u64::MAX ==> account.allocated(size).live == u64::MAX,
        account.allocated(size).peak >= account.peak && account.allocated(size).peak >= account.allocated(size).live,
        account.allocated(size).peak == account.peak || account.allocated(size).peak == account.allocated(size).live,
        size <= account.live ==> account.freed(size).live + size == account.live,
        size > account.live ==> account.freed(size).live == 0,
        account.freed(size).peak == account.peak,
        other <= size && account.live + size - other <= u64::MAX ==> account.resized(other, size).live == account.live
            + size - other,
        other > size && other - size <= account.live ==> account.resized(other, size).live == account.live + size
            - other,
        other > size && other - size > account.live ==> account.resized(other, size).live == 0,
        other > size ==> account.resized(other, size).peak == account.peak,
        account.allocated(size).depth == account.depth && account.freed(size).depth == account.depth,
        account.depth < u32::MAX ==> account.entered().depth == account.depth + 1,
        account.left().depth == account.depth - 1,
        ThreadAccount::idle().live == 0 && ThreadAccount::idle().peak == 0 && ThreadAccount::idle().depth == 0,
{
}

/// All metrics are those of the task and those of the framework; at first there is none.
pub proof fn law_all_metrics_are_both_kinds(view: MetricsView, name: Seq<char>)
    ensures
        view.all().dom().contains(name) <==> view.task.dom().contains(name) || view.framework.dom().contains(name),
        !MetricsView::none().all().dom().contains(name),
        !MetricsView::none().finalized,
        view.finalized ==> view.closed() == view,
{
}

} // verus!
