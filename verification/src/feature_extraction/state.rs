//! The running aggregates of a window: what a set of payloads adds up to,
//! kept up to date as payloads enter and leave.

use counter::Counter;
use vstd::prelude::*;
use vstd::seq_lib::lemma_flatten_concat;

use crate::feature_extraction::counting::{
    count, count_map, distinct_sum, first_index, greatest, is_greatest, lemma_count_contains,
    lemma_count_map_push, lemma_count_map_remove, lemma_count_remove, lemma_distinct_sum_le_sum,
    lemma_distinct_sum_push, lemma_distinct_sum_remove, lemma_first_index, lemma_greatest,
    lemma_greatest_push, lemma_greatest_unique, sum,
};
use crate::feature_extraction::counting::{
    distinct, lemma_count_map_dom, lemma_count_push, lemma_distinct_le_len,
    lemma_same_items_aggregates, lemma_same_items_flatten, same_items,
};
use crate::feature_extraction::histogram::{window_counts, ByteHistogram, Distribution};
use crate::feature_extraction::sliding::{
    n_unique_labels, n_unique_queries, unique_fill_ratio, unique_label_len,
    FixedWindowFeatureVector, Ratio, TimeWindowFeatureVector,
};
use crate::feature_extraction::tally::{
    counted_labels, drop_label, drop_query, label_count, label_counts, n_label_entries,
    n_query_entries, new_label_counter, new_query_counter, query_count, query_counts,
    set_label_count, set_query_count,
};
use crate::parse_dns::{clone_labels, encoded_len, labels_of, valid_labels, DnsPayload};

verus! {

/// The greatest number of payloads that a window state accounts for. Every
/// total of the state then fits its field.
pub const MAX_ENTRIES: usize = usize::MAX / 256;

/// The number of bytes of a label.
pub open spec fn label_len() -> spec_fn(Seq<u8>) -> nat {
    |label: Seq<u8>| label.len()
}

/// The number of bytes that a payload takes in a name.
pub open spec fn payload_len() -> spec_fn(Seq<Seq<u8>>) -> nat {
    |labels: Seq<Seq<u8>>| encoded_len(labels) as nat
}

/// The labels of the payloads `held`, in order.
pub open spec fn all_labels(held: Seq<Seq<Seq<u8>>>) -> Seq<Seq<u8>> {
    held.flatten()
}

/// The bytes of the labels of the payloads `held`, in order.
pub open spec fn all_bytes(held: Seq<Seq<Seq<u8>>>) -> Seq<u8> {
    held.flatten().flatten()
}

/// The aggregates over the payloads that a window holds.
pub struct WindowState {
    /// The number of payloads.
    pub n_queries: usize,
    /// How often each payload occurs.
    pub unique_queries: Counter<Vec<Vec<u8>>>,
    /// The number of labels.
    pub n_labels: usize,
    /// How often each label occurs.
    pub unique_labels: Counter<Vec<u8>>,
    /// The number of bytes of all labels.
    pub total_label_len: usize,
    /// The number of bytes of the distinct labels.
    pub total_unique_label_len: usize,
    /// The number of bytes that the distinct payloads take in a name.
    pub total_unique_query_len: usize,
    /// The number of bytes of the longest label.
    pub max_label_len: usize,
    /// How often each byte occurs.
    pub histogram: ByteHistogram,
    /// The payloads accounted for, oldest first.
    pub held: Ghost<Seq<Seq<Seq<u8>>>>,
}

impl View for WindowState {
    type V = Seq<Seq<Seq<u8>>>;

    /// The payloads that the state accounts for, each as its labels, in the
    /// order in which they were added.
    open spec fn view(&self) -> Seq<Seq<Seq<u8>>> {
        self.held@
    }
}

impl WindowState {
    /// Whether every aggregate is what the payloads `self@` add up to.
    pub open spec fn wf(&self) -> bool {
        &&& self@.len() <= MAX_ENTRIES
        &&& forall|i: int| 0 <= i < self@.len() ==> valid_labels(#[trigger] self@[i])
        &&& self.n_queries == self@.len()
        &&& query_counts(self.unique_queries) == count_map(self@)
        &&& self.n_labels == all_labels(self@).len()
        &&& label_counts(self.unique_labels) == count_map(all_labels(self@))
        &&& self.total_label_len == all_bytes(self@).len()
        &&& self.total_unique_label_len == distinct_sum(all_labels(self@), label_len())
        &&& self.total_unique_query_len == distinct_sum(self@, payload_len())
        &&& self.max_label_len == greatest(all_labels(self@), label_len())
        &&& self.histogram.holds(all_bytes(self@))
    }

    /// A state that accounts for no payload.
    pub fn new() -> (s: Self)
        ensures
            s.wf(),
            s@ == Seq::<Seq<Seq<u8>>>::empty(),
    {
        let s = WindowState {
            n_queries: 0,
            n_labels: 0,
            total_label_len: 0,
            total_unique_label_len: 0,
            total_unique_query_len: 0,
            max_label_len: 0,
            unique_queries: new_query_counter(),
            unique_labels: new_label_counter(),
            histogram: ByteHistogram::new(),
            held: Ghost(Seq::empty()),
        };
        proof {
            assert(s@ =~= Seq::<Seq<Seq<u8>>>::empty());
            assert(all_labels(s@) =~= Seq::<Seq<u8>>::empty());
            assert(all_bytes(s@) =~= Seq::<u8>::empty());
            assert(count_map(s@) =~= Map::<Seq<Seq<u8>>, usize>::empty());
            assert(count_map(all_labels(s@)) =~= Map::<Seq<u8>, usize>::empty());
        }
        s
    }

    /// Whether the counts and totals over labels are those of `labels`.
    pub open spec fn totals_wf(&self, labels: Seq<Seq<u8>>) -> bool {
        &&& label_counts(self.unique_labels) == count_map(labels)
        &&& self.total_label_len == labels.flatten().len()
        &&& self.total_unique_label_len == distinct_sum(labels, label_len())
        &&& self.histogram.holds(labels.flatten())
    }

    /// Whether the aggregates over labels are those of `labels`.
    pub open spec fn labels_wf(&self, labels: Seq<Seq<u8>>) -> bool {
        &&& self.totals_wf(labels)
        &&& self.max_label_len == greatest(labels, label_len())
    }

    /// Whether the fields that do not depend on the labels are those of
    /// `other`.
    pub open spec fn same_queries(&self, other: &Self) -> bool {
        &&& self.n_queries == other.n_queries
        &&& self.unique_queries == other.unique_queries
        &&& self.n_labels == other.n_labels
        &&& self.total_unique_query_len == other.total_unique_query_len
        &&& self.held == other.held
    }

    /// Counts one label in, which comes behind `labels`.
    fn add_label(&mut self, label: &Vec<u8>, Ghost(labels): Ghost<Seq<Seq<u8>>>)
        requires
            old(self).labels_wf(labels),
            labels.len() < usize::MAX,
            labels.flatten().len() + label@.len() <= usize::MAX,
        ensures
            final(self).labels_wf(labels.push(label@)),
            final(self).same_queries(old(self)),
    {
        proof {
            labels.lemma_flatten_push(label@);
            lemma_count_map_push(labels, label@);
            lemma_distinct_sum_push(labels, label_len(), label@);
            lemma_greatest_push(labels, label_len(), label@);
            lemma_distinct_sum_le_sum(labels, label_len());
            lemma_sum_is_flatten_len(labels);
        }
        self.total_label_len += label.len();
        match label_count(&self.unique_labels, label) {
            Some(n) => {
                set_label_count(&mut self.unique_labels, label.clone(), n + 1);
            },
            None => {
                self.total_unique_label_len += label.len();
                set_label_count(&mut self.unique_labels, label.clone(), 1);
            },
        }
        if label.len() > self.max_label_len {
            self.max_label_len = label.len();
        }
        self.histogram.add(label, Ghost(labels.flatten()));
    }

    /// Counts `entry` in.
    pub fn add(&mut self, entry: &DnsPayload)
        requires
            old(self).wf(),
            entry.wf(),
            old(self)@.len() < MAX_ENTRIES,
        ensures
            final(self).wf(),
            final(self)@ == old(self)@.push(entry@),
    {
        let ghost held = self@;
        let ghost after = held.push(entry@);
        proof {
            held.lemma_flatten_push(entry@);
            lemma_count_map_push(held, entry@);
            lemma_distinct_sum_push(held, payload_len(), entry@);
            lemma_totals_bound(after);
            assert(entry@.take(0) =~= Seq::<Seq<u8>>::empty());
            assert(all_labels(held) + entry@.take(0) =~= all_labels(held));
        }
        self.n_queries += 1;
        match query_count(&self.unique_queries, &entry.labels) {
            Some(n) => {
                set_query_count(&mut self.unique_queries, clone_labels(&entry.labels), n + 1);
            },
            None => {
                set_query_count(&mut self.unique_queries, clone_labels(&entry.labels), 1);
                proof {
                    lemma_distinct_sum_le_sum(after, payload_len());
                    lemma_payload_sum_bound(after);
                }
                self.total_unique_query_len += entry.payload_len as usize;
            },
        }
        self.n_labels += entry.labels.len();
        let mut k: usize = 0;
        while k < entry.labels.len()
            invariant
                k <= entry.labels.len(),
                entry@.len() == entry.labels.len(),
                held == old(self)@,
                after == held.push(entry@),
                all_labels(after) == all_labels(held) + entry@,
                all_labels(after).len() + all_bytes(after).len() <= usize::MAX,
                self.labels_wf(all_labels(held) + entry@.take(k as int)),
                self.n_queries == after.len(),
                query_counts(self.unique_queries) == count_map(after),
                self.n_labels == all_labels(after).len(),
                self.total_unique_query_len == distinct_sum(after, payload_len()),
                self.held == old(self).held,
            decreases entry.labels.len() - k,
        {
            let ghost cur = all_labels(held) + entry@.take(k as int);
            proof {
                assert(entry@[k as int] == entry.labels@[k as int]@);
                assert(cur.push(entry@[k as int]) =~= all_labels(held) + entry@.take(k + 1));
                assert(all_labels(after) =~= cur.push(entry@[k as int]) + entry@.skip(k + 1));
                lemma_flatten_concat(cur.push(entry@[k as int]), entry@.skip(k + 1));
                cur.lemma_flatten_push(entry@[k as int]);
            }
            self.add_label(&entry.labels[k], Ghost(cur));
            k += 1;
        }
        proof {
            assert(entry@.take(k as int) =~= entry@);
        }
        self.held = Ghost(after);
    }

    /// Counts one label out, which stands in the counted labels behind
    /// `before`. Tells whether it was the last of its kind.
    fn remove_label(
        &mut self,
        label: &Vec<u8>,
        Ghost(before): Ghost<Seq<Seq<u8>>>,
        Ghost(after): Ghost<Seq<Seq<u8>>>,
    ) -> (dropped: bool)
        requires
            old(self).totals_wf(before.push(label@) + after),
            before.len() + after.len() < usize::MAX,
        ensures
            final(self).totals_wf(before + after),
            final(self).same_queries(old(self)),
            final(self).max_label_len == old(self).max_label_len,
            dropped == (count(before + after, label@) == 0),
    {
        let ghost labels = before.push(label@) + after;
        let ghost k = before.len() as int;
        proof {
            assert(labels[k] == label@);
            assert(labels.remove(k) =~= before + after);
            lemma_count_map_remove(labels, k);
            lemma_count_remove(labels, k, label@);
            lemma_distinct_sum_remove(labels, label_len(), k);
            lemma_flatten_concat(before.push(label@), after);
            before.lemma_flatten_push(label@);
            lemma_flatten_concat(before, after);
        }
        self.total_label_len -= label.len();
        let mut dropped = false;
        match label_count(&self.unique_labels, label) {
            Some(n) => {
                if n <= 1 {
                    drop_label(&mut self.unique_labels, label);
                    self.total_unique_label_len -= label.len();
                    dropped = true;
                } else {
                    set_label_count(&mut self.unique_labels, label.clone(), n - 1);
                }
            },
            None => {},
        }
        self.histogram.remove(label, Ghost(before.flatten()), Ghost(after.flatten()));
        dropped
    }

    /// The length of the longest of the counted labels, none of which is
    /// longer than `bound`. The scan stops at the first label that reaches
    /// `bound`.
    fn longest_label(&self, bound: usize, Ghost(labels): Ghost<Seq<Seq<u8>>>) -> (m: usize)
        requires
            label_counts(self.unique_labels) == count_map(labels),
            forall|j: int| 0 <= j < labels.len() ==> (#[trigger] labels[j]).len() <= bound,
        ensures
            m == greatest(labels, label_len()),
    {
        let keys = counted_labels(&self.unique_labels);
        let ghost kv = labels_of(keys@);
        proof {
            assert forall|x: Seq<u8>| labels.contains(x) <==> kv.contains(x) by {
                lemma_count_contains(labels, x);
            }
        }
        let mut m: usize = 0;
        let mut i: usize = 0;
        while i < keys.len()
            invariant
                i <= keys.len(),
                kv == labels_of(keys@),
                forall|x: Seq<u8>| labels.contains(x) <==> kv.contains(x),
                forall|j: int| 0 <= j < labels.len() ==> (#[trigger] labels[j]).len() <= bound,
                forall|j: int| 0 <= j < i ==> (#[trigger] kv[j]).len() <= m,
                i == 0 ==> m == 0,
                i > 0 ==> exists|j: int| 0 <= j < i && (#[trigger] kv[j]).len() == m,
            decreases keys.len() - i,
        {
            let len: usize = keys[i].len();
            assert(kv[i as int] == keys@[i as int]@);
            assert(kv.contains(kv[i as int]));
            assert(labels.contains(kv[i as int]));
            if len >= bound {
                proof {
                    let w = choose|w: int| 0 <= w < labels.len() && labels[w] == kv[i as int];
                    assert(label_len()(labels[w]) == len);
                    assert(is_greatest(labels, label_len(), len as nat));
                    lemma_greatest_unique(labels, label_len(), len as nat);
                }
                return len;
            }
            if len > m {
                m = len;
            }
            i += 1;
        }
        proof {
            assert forall|j: int| 0 <= j < labels.len() implies label_len()(
                #[trigger] labels[j],
            ) <= m by {
                assert(labels.contains(labels[j]));
                assert(kv.contains(labels[j]));
                let w = choose|w: int| 0 <= w < kv.len() && kv[w] == labels[j];
                assert(kv[w].len() <= m);
            }
            if labels.len() > 0 {
                assert(labels.contains(labels[0]));
                assert(kv.contains(labels[0]));
                let j = choose|j: int| 0 <= j < i && (#[trigger] kv[j]).len() == m;
                assert(kv.contains(kv[j]));
                assert(labels.contains(kv[j]));
                let w = choose|w: int| 0 <= w < labels.len() && labels[w] == kv[j];
                assert(label_len()(labels[w]) == m);
            } else {
                if i > 0 {
                    assert(kv.contains(kv[0]));
                    assert(labels.contains(kv[0]));
                }
            }
            assert(is_greatest(labels, label_len(), m as nat));
            lemma_greatest_unique(labels, label_len(), m as nat);
        }
        m
    }

    /// Counts `removed` out, which the state accounts for. Where the state
    /// holds it more than once, the oldest leaves.
    pub fn remove(&mut self, removed: &DnsPayload)
        requires
            old(self).wf(),
            removed.wf(),
            old(self)@.contains(removed@),
        ensures
            final(self).wf(),
            final(self)@ == old(self)@.remove(first_index(old(self)@, removed@)),
    {
        let ghost held = self@;
        let ghost p = removed@;
        let ghost at = first_index(held, p);
        let ghost after = held.remove(at);
        let ghost pre = held.take(at).flatten();
        let ghost post = held.skip(at + 1).flatten();
        let ghost old_max = self.max_label_len;
        proof {
            lemma_first_index(held, p);
            assert(held[at] == p);
            lemma_count_map_remove(held, at);
            lemma_distinct_sum_remove(held, payload_len(), at);
            lemma_totals_bound(held);
            assert(held =~= held.take(at).push(p) + held.skip(at + 1));
            lemma_flatten_concat(held.take(at).push(p), held.skip(at + 1));
            held.take(at).lemma_flatten_push(p);
            assert(all_labels(held) =~= pre + p + post);
            assert(after =~= held.take(at) + held.skip(at + 1));
            lemma_flatten_concat(held.take(at), held.skip(at + 1));
            assert(all_labels(after) == pre + post);
            assert(p.skip(0) =~= p);
            lemma_greatest(all_labels(held), label_len());
            assert(valid_labels(held[at]));
            lemma_distinct_sum_le_sum(held, payload_len());
            assert forall|i: int| 0 <= i < after.len() implies valid_labels(
                #[trigger] after[i],
            ) by {
                if i < at {
                    assert(after[i] == held[i]);
                } else {
                    assert(after[i] == held[i + 1]);
                }
            }
        }
        self.n_queries -= 1;
        match query_count(&self.unique_queries, &removed.labels) {
            Some(n) => {
                if n <= 1 {
                    drop_query(&mut self.unique_queries, &removed.labels);
                    self.total_unique_query_len -= removed.payload_len as usize;
                } else {
                    set_query_count(&mut self.unique_queries, clone_labels(&removed.labels), n - 1);
                }
            },
            None => {},
        }
        self.n_labels -= removed.labels.len();
        let mut update_max = false;
        let mut k: usize = 0;
        while k < removed.labels.len()
            invariant
                k <= removed.labels.len(),
                p == removed@,
                p.len() == removed.labels.len(),
                held == old(self)@,
                pre.len() + p.len() + post.len() <= usize::MAX,
                self.totals_wf(pre + p.skip(k as int) + post),
                self.max_label_len == old_max,
                forall|j: int|
                    0 <= j < (pre + p.skip(k as int) + post).len() ==> (#[trigger] (pre + p.skip(
                        k as int,
                    ) + post)[j]).len() <= old_max,
                update_max || exists|j: int|
                    0 <= j < (pre + p.skip(k as int) + post).len() && (#[trigger] (pre + p.skip(
                        k as int,
                    ) + post)[j]).len() == old_max,
                self.n_queries == after.len(),
                query_counts(self.unique_queries) == count_map(after),
                self.n_labels == (pre + post).len(),
                self.total_unique_query_len == distinct_sum(after, payload_len()),
                self.held == old(self).held,
            decreases removed.labels.len() - k,
        {
            let ghost cur = pre + p.skip(k as int) + post;
            let ghost before = pre;
            let ghost behind = p.skip(k + 1) + post;
            let ghost next = pre + p.skip(k + 1) + post;
            let label = &removed.labels[k];
            proof {
                assert(p[k as int] == label@);
                assert(cur =~= before.push(label@) + behind);
                assert(next =~= before + behind);
                assert(next =~= cur.remove(pre.len() as int));
            }
            let dropped = self.remove_label(label, Ghost(before), Ghost(behind));
            proof {
                assert forall|j: int| 0 <= j < next.len() implies (#[trigger] next[j]).len()
                    <= old_max by {
                    if j < pre.len() {
                        assert(next[j] == cur[j]);
                    } else {
                        assert(next[j] == cur[j + 1]);
                    }
                }
                if !update_max && !(dropped && label.len() == old_max) {
                    let w = choose|w: int| 0 <= w < cur.len() && (#[trigger] cur[w]).len() == old_max;
                    if w < pre.len() {
                        assert(next[w] == cur[w]);
                    } else if w > pre.len() {
                        assert(next[w - 1] == cur[w]);
                    } else {
                        lemma_count_contains(next, label@);
                        let v = choose|v: int| 0 <= v < next.len() && next[v] == label@;
                        assert(next[v].len() == old_max);
                    }
                }
            }
            if dropped && label.len() == self.max_label_len {
                update_max = true;
            }
            k += 1;
        }
        proof {
            assert(p.skip(k as int) =~= Seq::<Seq<u8>>::empty());
            assert(pre + p.skip(k as int) + post =~= pre + post);
        }
        if update_max {
            self.max_label_len = self.longest_label(self.max_label_len, Ghost(pre + post));
        } else {
            proof {
                let labels = pre + post;
                let w = choose|w: int| 0 <= w < labels.len() && (#[trigger] labels[w]).len() == old_max;
                assert(label_len()(labels[w]) == old_max);
                assert forall|j: int| 0 <= j < labels.len() implies label_len()(
                    #[trigger] labels[j],
                ) <= old_max by {
                    assert(labels[j].len() <= old_max);
                }
                assert(is_greatest(labels, label_len(), old_max as nat));
                lemma_greatest_unique(labels, label_len(), old_max as nat);
            }
        }
        self.held = Ghost(after);
    }

    /// The byte distribution of the labels, of which the entropy of the
    /// window is computed.
    pub fn get_entropy(&self) -> (d: Distribution)
        requires
            self.wf(),
        ensures
            d.counts@ == window_counts(all_bytes(self@)),
            d.total == all_bytes(self@).len(),
    {
        Distribution {
            counts: self.histogram.counts(Ghost(all_bytes(self@))),
            total: self.total_label_len,
        }
    }

    /// The number of distinct payloads.
    pub fn n_unique_queries(&self) -> (n: usize)
        requires
            self.wf(),
        ensures
            n == distinct(self@),
            n <= self@.len(),
    {
        proof {
            lemma_count_map_dom(self@);
            lemma_distinct_le_len(self@);
        }
        n_query_entries(&self.unique_queries)
    }

    /// The number of distinct labels.
    pub fn n_unique_labels(&self) -> (n: usize)
        requires
            self.wf(),
        ensures
            n == distinct(all_labels(self@)),
            n <= all_labels(self@).len(),
    {
        proof {
            lemma_count_map_dom(all_labels(self@));
            lemma_distinct_le_len(all_labels(self@));
        }
        n_label_entries(&self.unique_labels)
    }

    /// The three quotients that the features of both kinds of window share:
    /// the mean length of the distinct labels, the share of the space that
    /// they fill, and the share of the payloads that are distinct.
    fn shared_ratios(&self, open_space: u8) -> (r: (Ratio, Ratio, Ratio))
        requires
            self.wf(),
        ensures
            r.0 == (Ratio {
                num: unique_label_len(self@) as i128,
                den: n_unique_labels(self@) as i128,
            }),
            r.1 == unique_fill_ratio(self@, open_space as int),
            r.2 == (Ratio { num: n_unique_queries(self@) as i128, den: self@.len() as i128 }),
    {
        let n_unique_queries = self.n_unique_queries();
        let n_unique_labels = self.n_unique_labels();
        proof {
            lemma_totals_bound(self@);
            lemma_distinct_sum_le_sum(all_labels(self@), label_len());
            lemma_sum_is_flatten_len(all_labels(self@));
            assert(0 <= open_space as int * n_unique_queries as int <= 255 * usize::MAX)
                by (nonlinear_arith)
                requires
                    0 <= open_space <= 255,
                    0 <= n_unique_queries <= usize::MAX,
            ;
        }
        (
            Ratio { num: self.total_unique_label_len as i128, den: n_unique_labels as i128 },
            Ratio {
                num: self.total_unique_label_len as i128 + n_unique_labels as i128
                    - n_unique_queries as i128,
                den: open_space as i128 * n_unique_queries as i128,
            },
            Ratio { num: n_unique_queries as i128, den: self.n_queries as i128 },
        )
    }

    /// The length of the longest label, which fits a byte.
    fn longest(&self) -> (m: u8)
        requires
            self.wf(),
        ensures
            m == greatest(all_labels(self@), label_len()),
    {
        proof {
            lemma_labels_bounded(self@);
            lemma_greatest(all_labels(self@), label_len());
        }
        self.max_label_len as u8
    }
}

impl TimeWindowFeatureVector {
    /// The features of a window of the duration `window_duration` whose
    /// aggregates are `ws`.
    pub fn from_window_state(id: usize, ws: &WindowState, open_space: u8, window_duration: u64) -> (fv:
        Self)
        requires
            ws.wf(),
        ensures
            fv.describes(id, ws@, open_space as int, window_duration),
    {
        let n_unique_queries = ws.n_unique_queries();
        let n_unique_labels = ws.n_unique_labels();
        let (avg_unique_label_length, unique_fill_ratio, unique_query_ratio) = ws.shared_ratios(
            open_space,
        );
        TimeWindowFeatureVector {
            id,
            n_unique_labels,
            unique_query_rate: Ratio {
                num: n_unique_queries as i128,
                den: window_duration as i128,
            },
            entropy: ws.get_entropy(),
            unique_transfer_rate: Ratio {
                num: ws.total_unique_label_len as i128,
                den: window_duration as i128,
            },
            avg_unique_label_length,
            unique_fill_ratio,
            max_label_length: ws.longest(),
            unique_query_ratio,
        }
    }
}

impl FixedWindowFeatureVector {
    /// The features of a window whose aggregates are `ws`.
    pub fn from_window_state(id: usize, ws: &WindowState, open_space: u8) -> (fv: Self)
        requires
            ws.wf(),
        ensures
            fv.describes(id, ws@, open_space as int),
    {
        let n_unique_labels = ws.n_unique_labels();
        let (avg_unique_label_length, unique_fill_ratio, unique_query_ratio) = ws.shared_ratios(
            open_space,
        );
        FixedWindowFeatureVector {
            id,
            n_unique_labels,
            entropy: ws.get_entropy(),
            avg_unique_label_length,
            unique_fill_ratio,
            max_label_length: ws.longest(),
            unique_query_ratio,
        }
    }
}

/// The bytes of some labels are as many as the lengths of the labels add up
/// to.
pub proof fn lemma_sum_is_flatten_len(labels: Seq<Seq<u8>>)
    ensures
        sum(labels, label_len()) == labels.flatten().len(),
    decreases labels.len(),
{
    if labels.len() == 0 {
    } else {
        lemma_sum_is_flatten_len(labels.drop_last());
        labels.drop_last().lemma_flatten_push(labels.last());
        assert(labels.drop_last().push(labels.last()) =~= labels);
    }
}

/// Payloads of a name's size have, in all, no more than 256 labels and bytes
/// each.
pub proof fn lemma_totals_bound(held: Seq<Seq<Seq<u8>>>)
    requires
        forall|i: int| 0 <= i < held.len() ==> valid_labels(#[trigger] held[i]),
    ensures
        all_labels(held).len() + all_bytes(held).len() <= 256 * held.len(),
    decreases held.len(),
{
    if held.len() == 0 {
    } else {
        let before = held.drop_last();
        lemma_totals_bound(before);
        before.lemma_flatten_push(held.last());
        assert(before.push(held.last()) =~= held);
        lemma_flatten_concat(before.flatten(), held.last());
        assert(valid_labels(held[held.len() - 1]));
    }
}

/// The sizes of payloads of a name's size add up to no more than 255 each.
pub proof fn lemma_payload_sum_bound(held: Seq<Seq<Seq<u8>>>)
    requires
        forall|i: int| 0 <= i < held.len() ==> valid_labels(#[trigger] held[i]),
    ensures
        sum(held, payload_len()) <= 255 * held.len(),
    decreases held.len(),
{
    if held.len() > 0 {
        lemma_payload_sum_bound(held.drop_last());
        assert(valid_labels(held[held.len() - 1]));
    }
}

/// No label of payloads of a name's size is longer than 63 bytes.
pub proof fn lemma_labels_bounded(held: Seq<Seq<Seq<u8>>>)
    requires
        forall|i: int| 0 <= i < held.len() ==> valid_labels(#[trigger] held[i]),
    ensures
        forall|j: int|
            0 <= j < all_labels(held).len() ==> (#[trigger] all_labels(held)[j]).len() <= 63,
    decreases held.len(),
{
    if held.len() > 0 {
        let before = held.drop_last();
        lemma_labels_bounded(before);
        before.lemma_flatten_push(held.last());
        assert(before.push(held.last()) =~= held);
        assert(valid_labels(held[held.len() - 1]));
        assert forall|j: int| 0 <= j < all_labels(held).len() implies (#[trigger] all_labels(
            held,
        )[j]).len() <= 63 by {
            if j < all_labels(before).len() {
                assert(all_labels(held)[j] == all_labels(before)[j]);
            } else {
                assert(all_labels(held)[j] == held.last()[j - all_labels(before).len()]);
            }
        }
    }
}

/// What a state accounts for after the steps `ops`, each of which counts the
/// payload `p` in (`true`) or out (`false`).
pub open spec fn after(held: Seq<Seq<Seq<u8>>>, ops: Seq<bool>, p: Seq<Seq<u8>>) -> Seq<
    Seq<Seq<u8>>,
>
    decreases ops.len(),
{
    if ops.len() == 0 {
        held
    } else {
        let before = after(held, ops.drop_last(), p);
        if ops.last() {
            before.push(p)
        } else {
            before.remove(first_index(before, p))
        }
    }
}

/// By how many the steps that count in outnumber those that count out.
pub open spec fn surplus(ops: Seq<bool>) -> int
    decreases ops.len(),
{
    if ops.len() == 0 {
        0
    } else {
        surplus(ops.drop_last()) + if ops.last() {
            1int
        } else {
            -1int
        }
    }
}

/// Whether each step of `ops` that counts `p` out finds it counted in.
pub open spec fn never_absent(held: Seq<Seq<Seq<u8>>>, ops: Seq<bool>, p: Seq<Seq<u8>>) -> bool {
    forall|k: int|
        0 <= k < ops.len() && !ops[k] ==> (#[trigger] after(held, ops.take(k), p)).contains(p)
}

/// After steps that count a payload in and out, the state holds what it
/// held, and the payload as often more as steps counted it in more often
/// than out.
pub proof fn lemma_after_counts(
    held: Seq<Seq<Seq<u8>>>,
    ops: Seq<bool>,
    p: Seq<Seq<u8>>,
    x: Seq<Seq<u8>>,
)
    requires
        never_absent(held, ops, p),
    ensures
        count(after(held, ops, p), x) == count(held, x) + if x == p {
            surplus(ops)
        } else {
            0
        },
    decreases ops.len(),
{
    if ops.len() > 0 {
        let shorter = ops.drop_last();
        assert forall|k: int| 0 <= k < shorter.len() && !shorter[k] implies (#[trigger] after(
            held,
            shorter.take(k),
            p,
        )).contains(p) by {
            assert(shorter.take(k) =~= ops.take(k));
            assert(!ops[k]);
        }
        lemma_after_counts(held, shorter, p, x);
        let before = after(held, shorter, p);
        if ops.last() {
            lemma_count_push(before, p, x);
        } else {
            assert(ops.take(ops.len() - 1) =~= shorter);
            assert(!ops[ops.len() - 1]);
            assert(before.contains(p));
            lemma_first_index(before, p);
            lemma_count_remove(before, first_index(before, p), x);
        }
    }
}

/// Two well-formed states that account for the same payloads, in whatever
/// order, agree in every field.
pub proof fn lemma_fields_follow_items(a: &WindowState, b: &WindowState)
    requires
        a.wf(),
        b.wf(),
        same_items(a@, b@),
    ensures
        a.n_queries == b.n_queries,
        query_counts(a.unique_queries) == query_counts(b.unique_queries),
        a.n_labels == b.n_labels,
        label_counts(a.unique_labels) == label_counts(b.unique_labels),
        a.total_label_len == b.total_label_len,
        a.total_unique_label_len == b.total_unique_label_len,
        a.total_unique_query_len == b.total_unique_query_len,
        a.max_label_len == b.max_label_len,
        a.histogram.ascii_map@ == b.histogram.ascii_map@,
        a.histogram.char_map@ == b.histogram.char_map@,
{
    lemma_same_items_aggregates(a@, b@, payload_len());
    lemma_same_items_flatten(a@, b@);
    lemma_same_items_aggregates(all_labels(a@), all_labels(b@), label_len());
    lemma_same_items_flatten(all_labels(a@), all_labels(b@));
    lemma_same_items_aggregates(all_bytes(a@), all_bytes(b@), |x: u8| 0nat);
    assert forall|i: int| 0 <= i < 128 implies a.histogram.ascii_map@[i]
        == b.histogram.ascii_map@[i] by {
        let byte = i as u8;
        assert(count(all_bytes(a@), byte) == count(all_bytes(b@), byte));
    }
    assert forall|i: int| 0 <= i < 256 implies a.histogram.char_map@[i]
        == b.histogram.char_map@[i] by {
        let byte = i as u8;
        assert(count(all_bytes(a@), byte) == count(all_bytes(b@), byte));
    }
    assert(a.histogram.ascii_map@ =~= b.histogram.ascii_map@);
    assert(a.histogram.char_map@ =~= b.histogram.char_map@);
}

/// Counting a payload in and out, as often the one as the other and in any
/// order in which it is never counted out while absent, brings every field
/// of the state back to what it was.
pub proof fn lemma_matched_adds_and_removes(
    start: &WindowState,
    end: &WindowState,
    ops: Seq<bool>,
    p: Seq<Seq<u8>>,
)
    requires
        start.wf(),
        end.wf(),
        never_absent(start@, ops, p),
        surplus(ops) == 0,
        end@ == after(start@, ops, p),
    ensures
        end.n_queries == start.n_queries,
        query_counts(end.unique_queries) == query_counts(start.unique_queries),
        end.n_labels == start.n_labels,
        label_counts(end.unique_labels) == label_counts(start.unique_labels),
        end.total_label_len == start.total_label_len,
        end.total_unique_label_len == start.total_unique_label_len,
        end.total_unique_query_len == start.total_unique_query_len,
        end.max_label_len == start.max_label_len,
        end.histogram.ascii_map@ == start.histogram.ascii_map@,
        end.histogram.char_map@ == start.histogram.char_map@,
{
    assert forall|x: Seq<Seq<u8>>|
        #![trigger count(end@, x)]
        #![trigger count(start@, x)]
        count(end@, x) == count(start@, x) by {
        lemma_after_counts(start@, ops, p, x);
    }
    lemma_fields_follow_items(end, start);
}

} // verus!
