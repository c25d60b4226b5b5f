//! Sliding windows over the payloads of one primary domain, bounded by time
//! or by count, and the features that each yields per entry.

use std::collections::VecDeque;

use vstd::prelude::*;

use crate::feature_extraction::counting::{distinct, distinct_sum, greatest, lemma_first_index};
use crate::feature_extraction::histogram::{window_counts, Distribution};
use crate::feature_extraction::state::{all_bytes, all_labels, label_len, WindowState, MAX_ENTRIES};
use crate::parse_dns::DnsPayload;

verus! {

/// The greatest length of a primary domain that leaves room for a payload.
pub const MAX_PRIMARY_LEN: u8 = 252;

/// An exact quotient of two integers, not reduced. The denominator may be 0:
/// the quotient is then undefined, and is handed on as it is.
#[derive(Debug, Clone, Copy, PartialEq, Eq, Structural)]
pub struct Ratio {
    pub num: i128,
    pub den: i128,
}

/// The bytes that a name leaves to a payload in front of a primary domain of
/// `primary_domain_length` bytes: 253, less the domain and its separator.
pub open spec fn open_space_for(primary_domain_length: u8) -> int {
    253 - (primary_domain_length + 1)
}

/// The number of distinct payloads among `held`.
pub open spec fn n_unique_queries(held: Seq<Seq<Seq<u8>>>) -> nat {
    distinct(held)
}

/// The number of distinct labels among those of `held`.
pub open spec fn n_unique_labels(held: Seq<Seq<Seq<u8>>>) -> nat {
    distinct(all_labels(held))
}

/// The number of bytes of the distinct labels among those of `held`.
pub open spec fn unique_label_len(held: Seq<Seq<Seq<u8>>>) -> nat {
    distinct_sum(all_labels(held), label_len())
}

/// The share of the space for payloads that the distinct labels of `held`
/// fill: their bytes and separators, over the space of as many names as
/// there are distinct payloads.
pub open spec fn unique_fill_ratio(held: Seq<Seq<Seq<u8>>>, open_space: int) -> Ratio {
    Ratio {
        num: (unique_label_len(held) + n_unique_labels(held) - n_unique_queries(held)) as i128,
        den: (open_space * n_unique_queries(held)) as i128,
    }
}

/// The features of a window bounded by time.
#[derive(Debug, Clone, PartialEq, Eq)]
pub struct TimeWindowFeatureVector {
    pub id: usize,
    pub n_unique_labels: usize,
    pub unique_query_rate: Ratio,
    pub entropy: Distribution,
    pub unique_transfer_rate: Ratio,
    pub avg_unique_label_length: Ratio,
    pub unique_fill_ratio: Ratio,
    pub max_label_length: u8,
    pub unique_query_ratio: Ratio,
}

/// The features of a window bounded by count.
#[derive(Debug, Clone, PartialEq, Eq)]
pub struct FixedWindowFeatureVector {
    pub id: usize,
    pub n_unique_labels: usize,
    pub entropy: Distribution,
    pub avg_unique_label_length: Ratio,
    pub unique_fill_ratio: Ratio,
    pub max_label_length: u8,
    pub unique_query_ratio: Ratio,
}

impl FixedWindowFeatureVector {
    /// Whether these are the features, under the number `id`, of a window
    /// that holds the payloads `held` and whose names leave `open_space`
    /// bytes to a payload.
    pub open spec fn describes(&self, id: usize, held: Seq<Seq<Seq<u8>>>, open_space: int) -> bool {
        &&& self.id == id
        &&& self.n_unique_labels == n_unique_labels(held)
        &&& self.entropy.counts@ == window_counts(all_bytes(held))
        &&& self.entropy.total == all_bytes(held).len()
        &&& self.avg_unique_label_length == (Ratio {
            num: unique_label_len(held) as i128,
            den: n_unique_labels(held) as i128,
        })
        &&& self.unique_fill_ratio == unique_fill_ratio(held, open_space)
        &&& self.max_label_length == greatest(all_labels(held), label_len())
        &&& self.unique_query_ratio == (Ratio {
            num: n_unique_queries(held) as i128,
            den: held.len() as i128,
        })
    }
}

impl TimeWindowFeatureVector {
    /// Whether these are the features, under the number `id`, of a window of
    /// the duration `duration` that holds the payloads `held` and whose names
    /// leave `open_space` bytes to a payload.
    pub open spec fn describes(
        &self,
        id: usize,
        held: Seq<Seq<Seq<u8>>>,
        open_space: int,
        duration: u64,
    ) -> bool {
        &&& self.id == id
        &&& self.n_unique_labels == n_unique_labels(held)
        &&& self.unique_query_rate == (Ratio {
            num: n_unique_queries(held) as i128,
            den: duration as i128,
        })
        &&& self.entropy.counts@ == window_counts(all_bytes(held))
        &&& self.entropy.total == all_bytes(held).len()
        &&& self.unique_transfer_rate == (Ratio {
            num: unique_label_len(held) as i128,
            den: duration as i128,
        })
        &&& self.avg_unique_label_length == (Ratio {
            num: unique_label_len(held) as i128,
            den: n_unique_labels(held) as i128,
        })
        &&& self.unique_fill_ratio == unique_fill_ratio(held, open_space)
        &&& self.max_label_length == greatest(all_labels(held), label_len())
        &&& self.unique_query_ratio == (Ratio {
            num: n_unique_queries(held) as i128,
            den: held.len() as i128,
        })
    }
}

/// The payloads of timed entries, in order.
pub open spec fn payloads(content: Seq<(i64, Seq<Seq<u8>>)>) -> Seq<Seq<Seq<u8>>> {
    content.map_values(|e: (i64, Seq<Seq<u8>>)| e.1)
}

/// The number of entries at the front of `content` that are older than
/// `horizon`.
pub open spec fn expired(content: Seq<(i64, Seq<Seq<u8>>)>, horizon: int) -> nat
    decreases content.len(),
{
    if content.len() > 0 && content[0].0 < horizon {
        1 + expired(content.drop_first(), horizon)
    } else {
        0
    }
}

/// What a window of the duration `duration` holds after an entry: what it
/// held, less the entries at the front that are older than the new entry by
/// more than the duration, and the new entry behind them.
pub open spec fn time_step(
    content: Seq<(i64, Seq<Seq<u8>>)>,
    duration: u64,
    entry: (i64, Seq<Seq<u8>>),
) -> Seq<(i64, Seq<Seq<u8>>)> {
    content.skip(expired(content, entry.0 - duration) as int).push(entry)
}

/// What a window of `size` entries holds after an entry: what it held, less
/// the oldest entry where it was full, and the new entry behind.
pub open spec fn fixed_step(content: Seq<Seq<Seq<u8>>>, size: usize, entry: Seq<Seq<u8>>) -> Seq<
    Seq<Seq<u8>>,
> {
    if content.len() >= size {
        content.drop_first().push(entry)
    } else {
        content.push(entry)
    }
}

/// No more entries are older than a horizon than there are entries.
pub proof fn lemma_expired_le_len(content: Seq<(i64, Seq<Seq<u8>>)>, horizon: int)
    ensures
        expired(content, horizon) <= content.len(),
    decreases content.len(),
{
    if content.len() > 0 {
        lemma_expired_le_len(content.drop_first(), horizon);
    }
}

/// What a window of `size` entries holds after the payloads `entries` have
/// passed through it one by one.
pub open spec fn fixed_run(size: usize, entries: Seq<Seq<Seq<u8>>>) -> Seq<Seq<Seq<u8>>>
    decreases entries.len(),
{
    if entries.len() == 0 {
        entries
    } else {
        fixed_step(fixed_run(size, entries.drop_last()), size, entries.last())
    }
}

/// What a window of the duration `duration` holds after `entries` have
/// passed through it one by one.
pub open spec fn time_run(duration: u64, entries: Seq<(i64, Seq<Seq<u8>>)>) -> Seq<
    (i64, Seq<Seq<u8>>),
>
    decreases entries.len(),
{
    if entries.len() == 0 {
        entries
    } else {
        time_step(time_run(duration, entries.drop_last()), duration, entries.last())
    }
}

/// A window bounded by time never holds more than has passed through it.
pub proof fn lemma_time_run_len(duration: u64, entries: Seq<(i64, Seq<Seq<u8>>)>)
    ensures
        time_run(duration, entries).len() <= entries.len(),
    decreases entries.len(),
{
    if entries.len() > 0 {
        lemma_time_run_len(duration, entries.drop_last());
        lemma_expired_le_len(
            time_run(duration, entries.drop_last()),
            entries.last().0 - duration,
        );
    }
}

/// Whether the entries stand in the order of their times.
pub open spec fn is_chronological(entries: Seq<(i64, Seq<Seq<u8>>)>) -> bool {
    forall|i: int, j: int| 0 <= i <= j < entries.len() ==> entries[i].0 <= entries[j].0
}

/// A window of `size` entries holds the last `size` of the entries that have
/// passed through it, or all of them where they are fewer: the older ones
/// have left it. So it never holds more than `size`, and exactly `size` once
/// that many have passed.
pub proof fn lemma_fixed_window_holds_last(size: usize, entries: Seq<Seq<Seq<u8>>>)
    requires
        size > 0,
    ensures
        fixed_run(size, entries) == entries.skip(
            if entries.len() > size {
                entries.len() - size
            } else {
                0
            },
        ),
        fixed_run(size, entries).len() == if entries.len() > size {
            size as int
        } else {
            entries.len() as int
        },
    decreases entries.len(),
{
    if entries.len() == 0 {
        assert(entries.skip(0) =~= entries);
    } else {
        let before = entries.drop_last();
        lemma_fixed_window_holds_last(size, before);
        let from = if entries.len() > size {
            entries.len() - size
        } else {
            0
        };
        if before.len() >= size {
            assert(before.skip(before.len() - size).drop_first().push(entries.last())
                =~= entries.skip(from));
        } else {
            assert(before.skip(0).push(entries.last()) =~= entries.skip(from));
        }
    }
}

/// Among entries in the order of their times, those older than a horizon
/// stand at the front, and no other is older than it.
pub proof fn lemma_expired_chronological(entries: Seq<(i64, Seq<Seq<u8>>)>, horizon: int)
    requires
        is_chronological(entries),
    ensures
        expired(entries, horizon) <= entries.len(),
        forall|i: int| 0 <= i < expired(entries, horizon) ==> entries[i].0 < horizon,
        forall|i: int| expired(entries, horizon) <= i < entries.len() ==> entries[i].0 >= horizon,
    decreases entries.len(),
{
    if entries.len() > 0 && entries[0].0 < horizon {
        let rest = entries.drop_first();
        assert forall|i: int, j: int| 0 <= i <= j < rest.len() implies rest[i].0 <= rest[j].0 by {
            assert(entries[i + 1].0 <= entries[j + 1].0);
        }
        lemma_expired_chronological(rest, horizon);
        assert forall|i: int| 0 <= i < expired(entries, horizon) implies entries[i].0
            < horizon by {
            if i > 0 {
                assert(rest[i - 1].0 < horizon);
            }
        }
        assert forall|i: int| expired(entries, horizon) <= i < entries.len() implies entries[i].0
            >= horizon by {
            assert(rest[i - 1].0 >= horizon);
        }
    } else if entries.len() > 0 {
        assert forall|i: int| 0 <= i < entries.len() implies entries[i].0 >= horizon by {
            assert(entries[0].0 <= entries[i].0);
        }
    }
}

/// Among entries in the order of their times, letting go those older than
/// one horizon and then those older than a later one lets go those older
/// than the later one.
pub proof fn lemma_expired_twice(entries: Seq<(i64, Seq<Seq<u8>>)>, first: int, second: int)
    requires
        is_chronological(entries),
        first <= second,
    ensures
        expired(entries, first) <= entries.len(),
        expired(entries, second) == expired(entries, first) + expired(
            entries.skip(expired(entries, first) as int),
            second,
        ),
    decreases entries.len(),
{
    if entries.len() > 0 && entries[0].0 < first {
        let rest = entries.drop_first();
        assert forall|i: int, j: int| 0 <= i <= j < rest.len() implies rest[i].0 <= rest[j].0 by {
            assert(entries[i + 1].0 <= entries[j + 1].0);
        }
        lemma_expired_twice(rest, first, second);
        assert(entries.skip(1 + expired(rest, first) as int) =~= rest.skip(
            expired(rest, first) as int,
        ));
    } else {
        assert(entries.skip(0) =~= entries);
    }
}

/// The count of the expired entries of a sequence whose last entry is not
/// expired is that of the sequence without its last entry.
pub proof fn lemma_expired_push(
    entries: Seq<(i64, Seq<Seq<u8>>)>,
    entry: (i64, Seq<Seq<u8>>),
    horizon: int,
)
    requires
        entry.0 >= horizon,
    ensures
        expired(entries.push(entry), horizon) == expired(entries, horizon),
    decreases entries.len(),
{
    if entries.len() > 0 && entries[0].0 < horizon {
        lemma_expired_push(entries.drop_first(), entry, horizon);
        assert(entries.push(entry).drop_first() =~= entries.drop_first().push(entry));
    } else if entries.len() == 0 {
        assert(entries.push(entry).drop_first() =~= entries);
    }
}

/// A window of the duration `duration`, through which entries have passed in
/// the order of their times, holds those that are not older than the last
/// by more than the duration, and no other: an entry of the time `t` has
/// left the window once an entry of a time greater than `t + duration` has
/// passed.
pub proof fn lemma_time_window_holds_recent(duration: u64, entries: Seq<(i64, Seq<Seq<u8>>)>)
    requires
        is_chronological(entries),
        entries.len() > 0,
    ensures
        expired(entries, entries.last().0 - duration) < entries.len(),
        time_run(duration, entries) == entries.skip(
            expired(entries, entries.last().0 - duration) as int,
        ),
        forall|i: int|
            0 <= i < entries.len() ==> (entries[i].0 + duration < entries.last().0 <==> i < expired(
                entries,
                entries.last().0 - duration,
            )),
    decreases entries.len(),
{
    let before = entries.drop_last();
    let last = entries.last();
    let horizon = last.0 - duration;
    assert(before.push(last) =~= entries);
    assert forall|i: int, j: int| 0 <= i <= j < before.len() implies before[i].0
        <= before[j].0 by {
        assert(entries[i].0 <= entries[j].0);
    }
    lemma_expired_chronological(entries, horizon);
    lemma_expired_push(before, last, horizon);
    lemma_expired_le_len(before, horizon);
    let run_before = time_run(duration, before);
    assert(time_run(duration, entries) == run_before.skip(
        expired(run_before, horizon) as int,
    ).push(last));
    if before.len() == 0 {
        assert(run_before.skip(0).push(last) =~= entries.skip(0));
    } else {
        lemma_time_window_holds_recent(duration, before);
        let earlier = before.last().0 - duration;
        assert(before.last().0 <= last.0) by {
            assert(entries[entries.len() - 2].0 <= entries[entries.len() - 1].0);
        }
        lemma_expired_twice(before, earlier, horizon);
        let k = expired(before, earlier) as int;
        let m = expired(before.skip(k), horizon) as int;
        lemma_expired_le_len(before.skip(k), horizon);
        assert(before.skip(k).skip(m) =~= before.skip(k + m));
        assert(before.skip(k + m).push(last) =~= entries.skip(k + m));
    }
}

/// The timed entries that a queue holds, each payload as its labels.
pub open spec fn timed_view(content: Seq<(i64, DnsPayload)>) -> Seq<(i64, Seq<Seq<u8>>)> {
    content.map_values(|e: (i64, DnsPayload)| (e.0, e.1@))
}

/// The payloads that a queue holds, each as its labels.
pub open spec fn payloads_view(content: Seq<DnsPayload>) -> Seq<Seq<Seq<u8>>> {
    content.map_values(|e: DnsPayload| e@)
}

/// A window over the entries of the last `window_size` ticks.
pub struct TimeWindow {
    window_size: u64,
    open_space: u8,
    content: VecDeque<(i64, DnsPayload)>,
    window_state: WindowState,
}

impl View for TimeWindow {
    type V = Seq<(i64, Seq<Seq<u8>>)>;

    /// The entries that the window holds, oldest first: the time of each and
    /// the labels of its payload.
    closed spec fn view(&self) -> Seq<(i64, Seq<Seq<u8>>)> {
        timed_view(self.content@)
    }
}

impl TimeWindow {
    /// The duration of the window, in ticks.
    pub closed spec fn duration(&self) -> u64 {
        self.window_size
    }

    /// The bytes that a name of the domain leaves to a payload.
    pub closed spec fn open_space(&self) -> int {
        self.open_space as int
    }

    /// Whether the aggregates of the window are those of the entries that it
    /// holds.
    pub closed spec fn wf(&self) -> bool {
        &&& self.window_state.wf()
        &&& self.window_state@ == payloads(self@)
        &&& forall|i: int| 0 <= i < self.content@.len() ==> (#[trigger] self.content@[i]).1.wf()
    }

    /// An empty window of the duration `duration` for a primary domain of
    /// `primary_domain_length` bytes.
    pub fn new(duration: u64, primary_domain_length: u8) -> (w: Self)
        requires
            primary_domain_length <= MAX_PRIMARY_LEN,
        ensures
            w.wf(),
            w@ == Seq::<(i64, Seq<Seq<u8>>)>::empty(),
            w.duration() == duration,
            w.open_space() == open_space_for(primary_domain_length),
    {
        let w = Self {
            window_size: duration,
            open_space: 253 - primary_domain_length - 1,
            content: VecDeque::new(),
            window_state: WindowState::new(),
        };
        proof {
            assert(w@ =~= Seq::<(i64, Seq<Seq<u8>>)>::empty());
            assert(payloads(w@) =~= Seq::<Seq<Seq<u8>>>::empty());
        }
        w
    }

    /// The number of entries that the window holds.
    pub fn len(&self) -> (n: usize)
        ensures
            n == self@.len(),
    {
        self.content.len()
    }

    /// Lets the entries leave that are older than `horizon`, from the front
    /// up to the first that is not.
    fn evict(&mut self, horizon: i128)
        requires
            old(self).wf(),
        ensures
            final(self).wf(),
            final(self)@ == old(self)@.skip(expired(old(self)@, horizon as int) as int),
            final(self).duration() == old(self).duration(),
            final(self).open_space() == old(self).open_space(),
    {
        let ghost start = self@;
        proof {
            assert(start.skip(0) =~= start);
        }
        loop
            invariant
                self.wf(),
                self.window_size == old(self).window_size,
                self.open_space == old(self).open_space,
                start == old(self)@,
                start.skip(expired(start, horizon as int) as int) == self@.skip(
                    expired(self@, horizon as int) as int,
                ),
            ensures
                self.wf(),
                self.window_size == old(self).window_size,
                self.open_space == old(self).open_space,
                self@ == start.skip(expired(start, horizon as int) as int),
            decreases self.content@.len(),
        {
            if self.content.len() == 0 {
                proof {
                    assert(self@.skip(0) =~= self@);
                }
                break ;
            }
            let front_ts: i64 = self.content[0].0;
            let ghost cur = self@;
            assert(cur[0].0 == front_ts);
            if front_ts as i128 >= horizon {
                proof {
                    assert(cur.skip(0) =~= cur);
                }
                break ;
            }
            let front = self.content.pop_front();
            let (_, payload) = front.unwrap();
            proof {
                assert(self@ =~= cur.drop_first());
                assert(payloads(cur)[0] == payload@);
                assert(payloads(cur).contains(payload@));
                lemma_first_index(payloads(cur), payload@);
                assert(payloads(cur).remove(0) =~= payloads(self@));
                lemma_expired_le_len(cur.drop_first(), horizon as int);
                assert(cur.skip(1 + expired(cur.drop_first(), horizon as int) as int)
                    =~= cur.drop_first().skip(expired(cur.drop_first(), horizon as int) as int));
            }
            self.window_state.remove(&payload);
        }
    }

    /// Lets the entries leave that are too old at the time `ts`, takes
    /// `new_entry` in, and gives the features of the window with it.
    pub fn process_entry(&mut self, id: usize, ts: i64, new_entry: DnsPayload) -> (fv:
        TimeWindowFeatureVector)
        requires
            old(self).wf(),
            new_entry.wf(),
            old(self)@.len() < MAX_ENTRIES,
        ensures
            final(self).wf(),
            final(self)@ == time_step(old(self)@, old(self).duration(), (ts, new_entry@)),
            final(self).duration() == old(self).duration(),
            final(self).open_space() == old(self).open_space(),
            fv.describes(id, payloads(final(self)@), old(self).open_space(), old(self).duration()),
    {
        let min_ts: i128 = ts as i128 - self.window_size as i128;
        proof {
            lemma_expired_le_len(self@, min_ts as int);
        }
        self.evict(min_ts);
        let ghost kept = self@;
        self.window_state.add(&new_entry);
        self.content.push_back((ts, new_entry));
        proof {
            assert(self@ =~= kept.push((ts, new_entry@)));
            assert(payloads(self@) =~= payloads(kept).push(new_entry@));
        }
        TimeWindowFeatureVector::from_window_state(
            id,
            &self.window_state,
            self.open_space,
            self.window_size,
        )
    }
}

/// A window over the last `window_size` entries.
pub struct FixedWindow {
    window_size: usize,
    open_space: u8,
    content: VecDeque<DnsPayload>,
    window_state: WindowState,
}

impl View for FixedWindow {
    type V = Seq<Seq<Seq<u8>>>;

    /// The payloads that the window holds, oldest first, each as its labels.
    closed spec fn view(&self) -> Seq<Seq<Seq<u8>>> {
        payloads_view(self.content@)
    }
}

impl FixedWindow {
    /// The greatest number of entries of the window.
    pub closed spec fn size(&self) -> usize {
        self.window_size
    }

    /// The bytes that a name of the domain leaves to a payload.
    pub closed spec fn open_space(&self) -> int {
        self.open_space as int
    }

    /// Whether the window holds no more than its size and its aggregates are
    /// those of the payloads that it holds.
    pub closed spec fn wf(&self) -> bool {
        &&& 0 < self.window_size <= MAX_ENTRIES
        &&& self.content@.len() <= self.window_size
        &&& self.window_state.wf()
        &&& self.window_state@ == self@
        &&& forall|i: int| 0 <= i < self.content@.len() ==> (#[trigger] self.content@[i]).wf()
    }

    /// An empty window of `size` entries for a primary domain of
    /// `primary_domain_length` bytes.
    pub fn new(size: usize, primary_domain_length: u8) -> (w: Self)
        requires
            0 < size <= MAX_ENTRIES,
            primary_domain_length <= MAX_PRIMARY_LEN,
        ensures
            w.wf(),
            w@ == Seq::<Seq<Seq<u8>>>::empty(),
            w.size() == size,
            w.open_space() == open_space_for(primary_domain_length),
    {
        let w = Self {
            window_size: size,
            open_space: 253 - (primary_domain_length + 1),
            content: VecDeque::new(),
            window_state: WindowState::new(),
        };
        proof {
            assert(w@ =~= Seq::<Seq<Seq<u8>>>::empty());
        }
        w
    }

    /// The number of entries that the window holds.
    pub fn len(&self) -> (n: usize)
        ensures
            n == self@.len(),
    {
        self.content.len()
    }

    /// A well-formed window holds no more entries than its size.
    pub proof fn lemma_len_le_size(&self)
        requires
            self.wf(),
        ensures
            self@.len() <= self.size(),
            0 < self.size() <= MAX_ENTRIES,
    {
    }

    /// Lets the oldest entry leave where the window is full, takes
    /// `new_entry` in, and gives the features of the window with it.
    pub fn process_entry(&mut self, id: usize, new_entry: DnsPayload) -> (fv:
        FixedWindowFeatureVector)
        requires
            old(self).wf(),
            new_entry.wf(),
        ensures
            final(self).wf(),
            final(self)@ == fixed_step(old(self)@, old(self).size(), new_entry@),
            final(self).size() == old(self).size(),
            final(self).open_space() == old(self).open_space(),
            fv.describes(id, final(self)@, old(self).open_space()),
    {
        let ghost before = self@;
        if self.content.len() >= self.window_size {
            let front = self.content.pop_front();
            let payload = front.unwrap();
            proof {
                assert(self@ =~= before.drop_first());
                assert(before[0] == payload@);
                assert(before.contains(payload@));
                lemma_first_index(before, payload@);
                assert(before.remove(0) =~= self@);
            }
            self.window_state.remove(&payload);
        }
        let ghost kept = self@;
        self.window_state.add(&new_entry);
        self.content.push_back(new_entry);
        proof {
            assert(self@ =~= kept.push(new_entry@));
        }
        FixedWindowFeatureVector::from_window_state(id, &self.window_state, self.open_space)
    }
}

} // verus!
