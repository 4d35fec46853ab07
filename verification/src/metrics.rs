//! What an attempt measured.
//!
//! A task attaches numbers under names of its own choosing; the framework adds its own
//! under a reserved prefix. What a task may attach is capped: when the set is closed the
//! smallest names stay, as many of them as fit, and what was dropped is itself recorded.

pub mod account;
pub mod laws;
pub mod value;

pub use self::account::{AttemptScope, AttributingAllocator, ThreadAccount};
pub use self::value::MetricValue;

use crate::names::{self, NameMap};
use crate::scan;
use crate::text;
use vstd::prelude::*;
use vstd::utf8::*;

verus! {

/// What the name of a framework metric begins with.
pub const RESERVED_PREFIX: &'static str = "dagr.";

/// How many metrics of a task are kept at most.
pub const MAX_ENTRIES: usize = 128;

/// How many bytes the metrics of a task that are kept take at most.
pub const MAX_ENCODED_BYTES: usize = 16384;

/// How many bytes a value is taken to need.
pub const VALUE_ENCODED_BYTES: usize = 8;

/// The most memory that the attempt held, in bytes.
pub const METRIC_PEAK_MEMORY_BYTES: &'static str = "dagr.peak_memory_bytes";

/// One if metrics of the task were dropped, else zero.
pub const METRIC_TRUNCATED: &'static str = "dagr.metrics.truncated_count";

/// How many metrics of the task were dropped.
pub const METRIC_TRUNCATED_DROPPED_ENTRIES: &'static str = "dagr.metrics.dropped_entries_count";

/// How many bytes of metrics the byte cap dropped.
pub const METRIC_TRUNCATED_DROPPED_BYTES: &'static str = "dagr.metrics.dropped_bytes_count";

/// What the name of a permit's size begins with.
pub const PERMIT_PREFIX: &'static str = "dagr.permit.";

/// What the name of a phase's time begins with.
pub const PHASE_PREFIX: &'static str = "dagr.phase.";

/// Why a metric was not taken.
#[derive(Debug, Clone, PartialEq, Eq)]
#[non_exhaustive]
pub enum MetricError {
    /// A task used a name that begins with the reserved prefix.
    ReservedPrefix { metric: String },
}

impl MetricError {
    /// The name that was refused.
    pub open spec fn refused(self) -> Seq<char> {
        match self {
            MetricError::ReservedPrefix { metric } => metric@,
        }
    }

    /// The error in words.
    #[must_use]
    pub fn render(&self) -> (r: String)
        ensures
            r@ == "metric `"@ + self.refused() + "` uses the reserved `"@ + RESERVED_PREFIX@
                + "` prefix, which is for framework metrics only — rename it without that prefix"@,
    {
        match self {
            MetricError::ReservedPrefix { metric } => {
                let mut s = String::from_str("metric `");
                s.append(metric.as_str());
                s.append("` uses the reserved `");
                s.append(RESERVED_PREFIX);
                s.append("` prefix, which is for framework metrics only — rename it without that prefix");
                s
            },
        }
    }
}

/// Whether a name is reserved for the framework.
pub open spec fn is_reserved(name: Seq<char>) -> bool {
    RESERVED_PREFIX@.is_prefix_of(name)
}

/// How many bytes a metric takes: its name and a fixed amount for its value.
pub open spec fn entry_size(name: Seq<char>) -> nat {
    encode_utf8(name).len() + VALUE_ENCODED_BYTES as nat
}

/// How many bytes metrics take.
pub open spec fn encoded<V>(entries: Seq<(Seq<char>, V)>) -> nat
    decreases entries.len(),
{
    if entries.len() == 0 {
        0
    } else {
        encoded(entries.drop_last()) + entry_size(entries.last().0)
    }
}

/// How many of the entries are kept: as many from the front as fit both caps.
pub open spec fn kept_count<V>(entries: Seq<(Seq<char>, V)>) -> nat
    decreases entries.len(),
{
    if entries.len() == 0 {
        0
    } else {
        let before = kept_count(entries.drop_last());
        if before == entries.len() - 1 && before < MAX_ENTRIES && encoded(entries) <= MAX_ENCODED_BYTES {
            entries.len()
        } else {
            before
        }
    }
}

/// How many bytes the byte cap drops. It is the byte cap that drops the rest where room
/// for another entry was left; otherwise it is the entry cap.
pub open spec fn dropped_for_size<V>(entries: Seq<(Seq<char>, V)>) -> nat {
    let kept = kept_count(entries);
    if kept < MAX_ENTRIES {
        encoded(entries.skip(kept as int))
    } else {
        0
    }
}

/// A count as a number of 64 bits.
pub open spec fn clamped(n: nat) -> u64 {
    if n <= u64::MAX {
        n as u64
    } else {
        u64::MAX
    }
}

/// The metrics of an attempt.
#[verifier::ext_equal]
pub struct MetricsView {
    pub task: Map<Seq<char>, MetricValue>,
    pub framework: Map<Seq<char>, MetricValue>,
    pub finalized: bool,
}

/// Numbers recorded under a prefix, one after the other.
pub open spec fn recorded(
    framework: Map<Seq<char>, MetricValue>,
    prefix: Seq<char>,
    items: Seq<(&str, u64)>,
) -> Map<Seq<char>, MetricValue>
    decreases items.len(),
{
    if items.len() == 0 {
        framework
    } else {
        recorded(framework, prefix, items.drop_last()).insert(
            prefix + items.last().0@,
            MetricValue::Unsigned(items.last().1),
        )
    }
}

impl MetricsView {
    /// No metrics.
    pub open spec fn none() -> Self {
        MetricsView { task: Map::empty(), framework: Map::empty(), finalized: false }
    }

    /// Task metrics have no reserved name, and framework metrics have no other.
    pub open spec fn wf(self) -> bool {
        &&& forall|name: Seq<char>| #[trigger] self.task.dom().contains(name) ==> !is_reserved(name)
        &&& forall|name: Seq<char>| #[trigger] self.framework.dom().contains(name) ==> is_reserved(name)
    }

    /// All metrics.
    pub open spec fn all(self) -> Map<Seq<char>, MetricValue> {
        self.task.union_prefer_right(self.framework)
    }

    /// The metrics once the set is closed.
    pub open spec fn closed(self) -> Self {
        if self.finalized {
            self
        } else {
            let entries = names::ordered(self.task);
            let kept = kept_count(entries) as int;
            MetricsView {
                task: names::entries_map(entries.take(kept)),
                framework: self.framework.insert(
                    METRIC_TRUNCATED@,
                    MetricValue::Unsigned(
                        if kept < entries.len() {
                            1
                        } else {
                            0
                        },
                    ),
                ).insert(
                    METRIC_TRUNCATED_DROPPED_ENTRIES@,
                    MetricValue::Unsigned(clamped((entries.len() - kept) as nat)),
                ).insert(
                    METRIC_TRUNCATED_DROPPED_BYTES@,
                    MetricValue::Unsigned(clamped(dropped_for_size(entries))),
                ),
                finalized: true,
            }
        }
    }
}

/// The metrics of an attempt.
#[derive(Debug, Clone)]
pub struct AttemptMetrics {
    task: NameMap<MetricValue>,
    framework: NameMap<MetricValue>,
    finalized: bool,
}

impl View for AttemptMetrics {
    type V = MetricsView;

    closed spec fn view(&self) -> MetricsView {
        MetricsView { task: self.task@, framework: self.framework@, finalized: self.finalized }
    }
}

impl Default for AttemptMetrics {
    fn default() -> (r: Self)
        ensures
            r.wf(),
            r@ == MetricsView::none(),
    {
        AttemptMetrics::new()
    }
}

proof fn lemma_prefix_of_prefix(prefix: Seq<char>, rest: Seq<char>)
    requires
        is_reserved(prefix),
    ensures
        is_reserved(prefix + rest),
{
    let n = RESERVED_PREFIX@.len() as int;
    assert((prefix + rest).subrange(0, n) =~= prefix.subrange(0, n));
}

proof fn lemma_names_are_reserved()
    ensures
        is_reserved(METRIC_PEAK_MEMORY_BYTES@),
        is_reserved(METRIC_TRUNCATED@),
        is_reserved(METRIC_TRUNCATED_DROPPED_ENTRIES@),
        is_reserved(METRIC_TRUNCATED_DROPPED_BYTES@),
        is_reserved(PERMIT_PREFIX@),
        is_reserved(PHASE_PREFIX@),
{
    reveal_strlit("dagr.");
    reveal_strlit("dagr.peak_memory_bytes");
    reveal_strlit("dagr.metrics.truncated_count");
    reveal_strlit("dagr.metrics.dropped_entries_count");
    reveal_strlit("dagr.metrics.dropped_bytes_count");
    reveal_strlit("dagr.permit.");
    reveal_strlit("dagr.phase.");
    let p = RESERVED_PREFIX@;
    assert(METRIC_PEAK_MEMORY_BYTES@.subrange(0, 5) =~= p);
    assert(METRIC_TRUNCATED@.subrange(0, 5) =~= p);
    assert(METRIC_TRUNCATED_DROPPED_ENTRIES@.subrange(0, 5) =~= p);
    assert(METRIC_TRUNCATED_DROPPED_BYTES@.subrange(0, 5) =~= p);
    assert(PERMIT_PREFIX@.subrange(0, 5) =~= p);
    assert(PHASE_PREFIX@.subrange(0, 5) =~= p);
}

/// How many bytes the name of a metric takes.
fn name_size(name: &str) -> (r: usize)
    ensures
        r == encode_utf8(name@).len(),
{
    name.as_bytes().len()
}

proof fn lemma_inserts_keep_wf(view: MetricsView, name: Seq<char>, value: MetricValue)
    requires
        view.wf(),
    ensures
        !is_reserved(name) ==> (MetricsView { task: view.task.insert(name, value), ..view }).wf(),
        is_reserved(name) ==> (MetricsView { framework: view.framework.insert(name, value), ..view }).wf(),
{
    assert forall|n: Seq<char>| !is_reserved(name) && #[trigger] view.task.insert(name, value).dom().contains(
        n,
    ) implies !is_reserved(n) by {
        assert(n == name || view.task.dom().contains(n));
    }
    assert forall|n: Seq<char>| is_reserved(name) && #[trigger] view.framework.insert(name, value).dom().contains(
        n,
    ) implies is_reserved(n) by {
        assert(n == name || view.framework.dom().contains(n));
    }
}

impl AttemptMetrics {
    /// The names stand in order, and the two kinds of metrics do not mix.
    pub closed spec fn wf(self) -> bool {
        self.task.wf() && self.framework.wf() && self@.wf()
    }

    /// No metrics.
    #[must_use]
    pub fn new() -> (r: Self)
        ensures
            r.wf(),
            r@ == MetricsView::none(),
    {
        AttemptMetrics { task: NameMap::new(), framework: NameMap::new(), finalized: false }
    }

    /// Attaches a number under a name. A name that is there already gets the new number;
    /// one that begins with the reserved prefix is refused, and nothing is attached.
    pub fn attach(&mut self, name: &str, value: MetricValue) -> (r: Result<(), MetricError>)
        requires
            old(self).wf(),
        ensures
            final(self).wf(),
            match r {
                Ok(_) => !is_reserved(name@) && final(self)@ == (MetricsView {
                    task: old(self)@.task.insert(name@, value),
                    ..old(self)@
                }),
                Err(e) => is_reserved(name@) && e.refused() == name@ && final(self)@ == old(self)@,
            },
    {
        if scan::starts_with(&text::chars_of(name), &text::chars_of(RESERVED_PREFIX)) {
            return Err(MetricError::ReservedPrefix { metric: String::from_str(name) });
        }
        proof {
            lemma_inserts_keep_wf(self@, name@, value);
        }
        self.task.insert(String::from_str(name), value);
        Ok(())
    }

    /// Records the most memory that the attempt held.
    pub fn set_peak_memory_bytes(&mut self, bytes: u64)
        requires
            old(self).wf(),
        ensures
            final(self).wf(),
            final(self)@ == (MetricsView {
                framework: old(self)@.framework.insert(METRIC_PEAK_MEMORY_BYTES@, MetricValue::Unsigned(bytes)),
                ..old(self)@
            }),
    {
        proof {
            lemma_names_are_reserved();
            lemma_inserts_keep_wf(self@, METRIC_PEAK_MEMORY_BYTES@, MetricValue::Unsigned(bytes));
        }
        self.framework.insert(String::from_str(METRIC_PEAK_MEMORY_BYTES), MetricValue::Unsigned(bytes));
    }

    /// Records how much the attempt was granted of each pool.
    pub fn set_permit_sizes(&mut self, sizes: &[(&str, u64)])
        requires
            old(self).wf(),
        ensures
            final(self).wf(),
            final(self)@ == (MetricsView {
                framework: recorded(old(self)@.framework, PERMIT_PREFIX@, sizes@),
                ..old(self)@
            }),
    {
        proof {
            lemma_names_are_reserved();
        }
        self.record(PERMIT_PREFIX, sizes);
    }

    /// Records how long each phase of the attempt took.
    pub fn set_phase_timings(&mut self, phases: &[(&str, u64)])
        requires
            old(self).wf(),
        ensures
            final(self).wf(),
            final(self)@ == (MetricsView {
                framework: recorded(old(self)@.framework, PHASE_PREFIX@, phases@),
                ..old(self)@
            }),
    {
        proof {
            lemma_names_are_reserved();
        }
        self.record(PHASE_PREFIX, phases);
    }

    fn record(&mut self, prefix: &str, items: &[(&str, u64)])
        requires
            old(self).wf(),
            is_reserved(prefix@),
        ensures
            final(self).wf(),
            final(self)@ == (MetricsView {
                framework: recorded(old(self)@.framework, prefix@, items@),
                ..old(self)@
            }),
    {
        let ghost start = self@;
        let mut i: usize = 0;
        while i < items.len()
            invariant
                i <= items.len(),
                self.wf(),
                is_reserved(prefix@),
                start == old(self)@,
                self@ == (MetricsView {
                    framework: recorded(start.framework, prefix@, items@.take(i as int)),
                    ..start
                }),
            decreases items.len() - i,
        {
            let mut name = String::from_str(prefix);
            name.append(items[i].0);
            proof {
                lemma_prefix_of_prefix(prefix@, items@[i as int].0@);
                let next = items@.take(i + 1);
                assert(next.drop_last() =~= items@.take(i as int));
                assert(next.last() == items@[i as int]);
                lemma_inserts_keep_wf(self@, name@, MetricValue::Unsigned(items@[i as int].1));
            }
            self.framework.insert(name, MetricValue::Unsigned(items[i].1));
            i = i + 1;
        }
        assert(items@.take(items@.len() as int) =~= items@);
    }

    /// Closes the set: keeps the smallest names of the task's metrics, as many as fit
    /// both caps, and records whether any were dropped, how many, and how many bytes the
    /// byte cap dropped. A second call does nothing.
    pub fn finalize_task_metrics(&mut self)
        requires
            old(self).wf(),
        ensures
            final(self).wf(),
            final(self)@ == old(self)@.closed(),
    {
        if self.finalized {
            return;
        }
        let ghost start = self@;
        let ghost entries = self.task.entries();
        proof {
            names::lemma_ordered(entries);
            lemma_names_are_reserved();
        }
        let count: usize = self.task.len();
        let mut kept: usize = 0;
        let mut size: u128 = 0;
        let mut full: bool = false;
        while kept < count && !full
            invariant
                kept <= count,
                kept <= MAX_ENTRIES,
                count == entries.len(),
                self.task.entries() == entries,
                size == encoded(entries.take(kept as int)),
                size <= MAX_ENCODED_BYTES,
                kept_count(entries.take(kept as int)) == kept,
                full ==> kept < count && kept_count(entries.take(kept + 1)) == kept,
            decreases count - kept, if full {
                0int
            } else {
                1int
            },
        {
            let cost: u128 = name_size(self.task.name_at(kept)) as u128 + VALUE_ENCODED_BYTES as u128;
            proof {
                let next = entries.take(kept + 1);
                assert(next.drop_last() =~= entries.take(kept as int));
                assert(next.last() == entries[kept as int]);
            }
            if kept >= MAX_ENTRIES || size + cost > MAX_ENCODED_BYTES as u128 {
                full = true;
            } else {
                size = size + cost;
                kept = kept + 1;
            }
        }
        proof {
            if full {
                lemma_kept_stays(entries, kept + 1);
            } else {
                assert(entries.take(kept as int) =~= entries);
            }
        }
        let mut dropped: u64 = 0;
        let mut i: usize = kept;
        let by_size: bool = kept < MAX_ENTRIES;
        assert(entries.subrange(kept as int, kept as int) =~= Seq::empty());
        while by_size && i < count
            invariant
                kept <= i <= count,
                count == entries.len(),
                self.task.entries() == entries,
                !by_size ==> i == kept,
                dropped == clamped(encoded(entries.subrange(kept as int, i as int))),
            decreases count - i,
        {
            let cost: u128 = name_size(self.task.name_at(i)) as u128 + VALUE_ENCODED_BYTES as u128;
            proof {
                let next = entries.subrange(kept as int, i + 1);
                assert(next.drop_last() =~= entries.subrange(kept as int, i as int));
                assert(next.last() == entries[i as int]);
            }
            let sum: u128 = dropped as u128 + cost;
            dropped = if sum <= u64::MAX as u128 {
                sum as u64
            } else {
                u64::MAX
            };
            i = i + 1;
        }
        proof {
            if by_size {
                assert(entries.subrange(kept as int, count as int) =~= entries.skip(kept as int));
            }
            assert(dropped == clamped(dropped_for_size(entries)));
        }
        self.task.truncate(kept);
        self.finalized = true;
        let truncated: u64 = if kept < count {
            1
        } else {
            0
        };
        let missing: u64 = (count - kept) as u64;
        self.framework.insert(String::from_str(METRIC_TRUNCATED), MetricValue::Unsigned(truncated));
        self.framework.insert(String::from_str(METRIC_TRUNCATED_DROPPED_ENTRIES), MetricValue::Unsigned(missing));
        self.framework.insert(String::from_str(METRIC_TRUNCATED_DROPPED_BYTES), MetricValue::Unsigned(dropped));
        proof {
            assert(self@ =~= start.closed());
            assert forall|name: Seq<char>| #[trigger] self@.task.dom().contains(name) implies !is_reserved(name) by {
                let some = entries.take(kept as int);
                let k = names::position_of(some, name);
                assert(entries[k].0 == name);
                assert(start.task.dom().contains(name));
            }
        }
    }

    /// How many bytes the task's metrics take.
    #[must_use]
    pub fn encoded_size(&self) -> (r: usize)
        requires
            self.wf(),
            encoded(names::ordered(self@.task)) <= usize::MAX,
        ensures
            r == encoded(names::ordered(self@.task)),
    {
        let ghost entries = self.task.entries();
        proof {
            names::lemma_ordered(entries);
        }
        let mut size: usize = 0;
        let mut i: usize = 0;
        while i < self.task.len()
            invariant
                i <= self.task.entries().len(),
                entries == self.task.entries(),
                encoded(entries) <= usize::MAX,
                size == encoded(entries.take(i as int)),
            decreases self.task.entries().len() - i,
        {
            proof {
                let next = entries.take(i + 1);
                assert(next.drop_last() =~= entries.take(i as int));
                assert(next.last() == entries[i as int]);
                lemma_encoded_grows(entries, i + 1);
            }
            size = size + (name_size(self.task.name_at(i)) + VALUE_ENCODED_BYTES);
            i = i + 1;
        }
        assert(entries.take(entries.len() as int) =~= entries);
        size
    }

    /// How many framework metrics there are.
    #[must_use]
    pub fn framework_metric_count(&self) -> (r: usize)
        requires
            self.wf(),
        ensures
            r == names::ordered(self@.framework).len(),
    {
        proof {
            names::lemma_ordered(self.framework.entries());
        }
        self.framework.len()
    }

    /// All metrics, in name order.
    #[must_use]
    pub fn collected(&self) -> (r: Vec<(String, MetricValue)>)
        requires
            self.wf(),
        ensures
            r@.map_values(|e: (String, MetricValue)| (e.0@, e.1)) == names::ordered(self@.all()),
    {
        let mut all: NameMap<MetricValue> = NameMap::new();
        add_entries(&mut all, &self.task);
        add_entries(&mut all, &self.framework);
        proof {
            assert(all@ =~= self@.all());
            names::lemma_ordered(all.entries());
        }
        let ghost entries = all.entries();
        let mut out: Vec<(String, MetricValue)> = Vec::new();
        let mut i: usize = 0;
        assert(out@.map_values(|e: (String, MetricValue)| (e.0@, e.1)) =~= entries.take(0));
        while i < all.len()
            invariant
                i <= all.entries().len(),
                entries == all.entries(),
                out@.map_values(|e: (String, MetricValue)| (e.0@, e.1)) == entries.take(i as int),
            decreases all.entries().len() - i,
        {
            let ghost before = out@;
            let item = (String::from_str(all.name_at(i)), *all.value_at(i));
            out.push(item);
            proof {
                let view = |e: (String, MetricValue)| (e.0@, e.1);
                assert(view(item) == entries[i as int]);
                assert(out@.map_values(view) =~= before.map_values(view).push(view(item)));
                assert(entries.take(i + 1) =~= entries.take(i as int).push(entries[i as int]));
            }
            i = i + 1;
        }
        assert(entries.take(entries.len() as int) =~= entries);
        out
    }
}

fn add_entries(all: &mut NameMap<MetricValue>, more: &NameMap<MetricValue>)
    requires
        old(all).wf(),
        more.wf(),
    ensures
        final(all).wf(),
        final(all)@ == old(all)@.union_prefer_right(more@),
{
    let ghost start = all@;
    let ghost entries = more.entries();
    let mut i: usize = 0;
    proof {
        assert(names::entries_map(entries.take(0)) =~= Map::<Seq<char>, MetricValue>::empty());
        assert(start.union_prefer_right(Map::empty()) =~= start);
    }
    while i < more.len()
        invariant
            i <= more.entries().len(),
            entries == more.entries(),
            more.wf(),
            all.wf(),
            start == old(all)@,
            all@ == start.union_prefer_right(names::entries_map(entries.take(i as int))),
        decreases more.entries().len() - i,
    {
        let ghost before = names::entries_map(entries.take(i as int));
        all.insert(String::from_str(more.name_at(i)), *more.value_at(i));
        proof {
            let (name, value) = entries[i as int];
            let next = entries.take(i + 1);
            assert(next =~= entries.take(i as int).push((name, value)));
            assert(names::in_name_order(next)) by {
                assert forall|a: int, b: int| 0 <= a < b < next.len() implies text::name_lt(
                    #[trigger] next[a].0,
                    #[trigger] next[b].0,
                ) by {
                    assert(text::name_lt(entries[a].0, entries[b].0));
                }
            }
            names::lemma_pushed(entries.take(i as int), name, value);
            assert(start.union_prefer_right(before.insert(name, value)) =~= start.union_prefer_right(before).insert(
                name,
                value,
            ));
        }
        i = i + 1;
    }
    assert(entries.take(entries.len() as int) =~= entries);
}

/// Once an entry does not fit, none behind it is kept.
proof fn lemma_kept_stays<V>(entries: Seq<(Seq<char>, V)>, n: int)
    requires
        1 <= n <= entries.len(),
        kept_count(entries.take(n)) < n,
    ensures
        kept_count(entries) == kept_count(entries.take(n)),
    decreases entries.len() - n,
{
    if n == entries.len() {
        assert(entries.take(n) =~= entries);
    } else {
        assert(entries.take(n + 1).drop_last() =~= entries.take(n));
        lemma_kept_stays(entries, n + 1);
    }
}

proof fn lemma_encoded_grows<V>(entries: Seq<(Seq<char>, V)>, n: int)
    requires
        0 <= n <= entries.len(),
    ensures
        encoded(entries.take(n)) <= encoded(entries),
    decreases entries.len() - n,
{
    if n == entries.len() {
        assert(entries.take(n) =~= entries);
    } else {
        lemma_encoded_grows(entries, n + 1);
        assert(entries.take(n + 1).drop_last() =~= entries.take(n));
    }
}

} // verus!
