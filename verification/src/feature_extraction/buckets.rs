//! The records of a run by primary domain: one bucket for each domain, in
//! the order of their times, and the features of each bucket.

use std::collections::HashMap;

use vstd::prelude::*;

use crate::feature_extraction::sliding::MAX_PRIMARY_LEN;
use crate::feature_extraction::state::MAX_ENTRIES;
use crate::feature_extraction::{all_wf, extract_features_per_domain, ExtractOpts, FeatureRow};
use crate::shared_interface::{LogRecord, PrimaryDomainStats};

verus! {

/// The records of `records` that belong to the domain `id`, in order.
pub open spec fn of_domain(records: Seq<(u32, LogRecord)>, id: u32) -> Seq<LogRecord>
    decreases records.len(),
{
    if records.len() == 0 {
        Seq::empty()
    } else if records.last().0 == id {
        of_domain(records.drop_last(), id).push(records.last().1)
    } else {
        of_domain(records.drop_last(), id)
    }
}

/// Whether one of `buckets` is that of the domain `id`.
pub open spec fn has_bucket(buckets: Seq<(u32, Vec<LogRecord>)>, id: u32) -> bool {
    exists|i: int| 0 <= i < buckets.len() && (#[trigger] buckets[i]).0 == id
}

/// Whether `buckets` are the records `records` by domain: each bucket holds
/// the records of its domain, all of them and in their order, no bucket is
/// empty, no two are of one domain, and each record has its bucket.
pub open spec fn is_bucketing(
    buckets: Seq<(u32, Vec<LogRecord>)>,
    records: Seq<(u32, LogRecord)>,
) -> bool {
    &&& forall|i: int|
        0 <= i < buckets.len() ==> (#[trigger] buckets[i]).1@ == of_domain(records, buckets[i].0)
            && buckets[i].1@.len() > 0
    &&& forall|i: int, j: int|
        0 <= i < j < buckets.len() ==> (#[trigger] buckets[i]).0 != (#[trigger] buckets[j]).0
    &&& forall|k: int| 0 <= k < records.len() ==> has_bucket(buckets, (#[trigger] records[k]).0)
}

/// Whether the records stand in the order of their times.
pub open spec fn is_sorted(entries: Seq<LogRecord>) -> bool {
    forall|i: int, j: int| 0 <= i <= j < entries.len() ==> entries[i].ts <= entries[j].ts
}

/// The records of `entries` with the time `t`, in order.
pub open spec fn at_time(entries: Seq<LogRecord>, t: i64) -> Seq<LogRecord> {
    entries.filter(|r: LogRecord| r.ts == t)
}

/// Whether `sorted` holds the records of `entries` in the order of their
/// times, those of one time in the order that they have in `entries`.
pub open spec fn is_sorting(sorted: Seq<LogRecord>, entries: Seq<LogRecord>) -> bool {
    &&& is_sorted(sorted)
    &&& sorted.to_multiset() == entries.to_multiset()
    &&& forall|t: i64| #[trigger] at_time(sorted, t) == at_time(entries, t)
}

/// `<[T]>::sort_by_key` with the time of a record as its key. The sort is
/// stable: afterwards the same records stand in the order of their times,
/// and those of one time in the order that they had.
#[verifier::external_body]
fn sort_by_time(entries: &mut Vec<LogRecord>)
    ensures
        is_sorting(final(entries)@, old(entries)@),
{
    entries.sort_by_key(|record| record.ts);
}

/// Puts each record into the bucket of its domain. The buckets come in no
/// order that a caller may rely on. Where `stats` knows a domain,
/// its bucket is given room for as many records as the domain is said to
/// have; what `stats` says has no bearing on what the buckets hold.
pub fn bucket_records(
    records: Vec<(u32, LogRecord)>,
    stats: &HashMap<u32, PrimaryDomainStats>,
) -> (buckets: Vec<(u32, Vec<LogRecord>)>)
    ensures
        is_bucketing(buckets@, records@),
{
    broadcast use vstd::std_specs::hash::group_hash_axioms;

    let ghost all = records@;
    let n_records: usize = records.len();
    let mut index: HashMap<u32, usize> = HashMap::new();
    let mut buckets: Vec<(u32, Vec<LogRecord>)> = Vec::new();
    proof {
        assert(all.take(0) =~= Seq::<(u32, LogRecord)>::empty());
    }
    for entry in it: records
        invariant
            it.seq() == all,
            forall|i: int|
                0 <= i < buckets@.len() ==> index@.contains_key((#[trigger] buckets@[i]).0)
                    && index@[buckets@[i].0] == i,
            forall|id: u32|
                #[trigger] index@.contains_key(id) ==> index@[id] < buckets@.len()
                    && buckets@[index@[id] as int].0 == id,
            forall|id: u32|
                !index@.contains_key(id) ==> (#[trigger] of_domain(
                    all.take(it.index() as int),
                    id,
                )).len() == 0,
            forall|i: int|
                0 <= i < buckets@.len() ==> (#[trigger] buckets@[i]).1@ == of_domain(
                    all.take(it.index() as int),
                    buckets@[i].0,
                ) && buckets@[i].1@.len() > 0,
            forall|k: int|
                0 <= k < it.index() ==> index@.contains_key((#[trigger] all[k]).0),
    {
        let ghost k = it.index() as int;
        let ghost done = all.take(k);
        let ghost next = all.take(k + 1);
        let ghost before = buckets@;
        let (id, record) = entry;
        proof {
            assert(next.drop_last() =~= done);
            assert(next.last() == all[k]);
            assert(all[k] == (id, record));
        }
        let found: Option<usize> = match index.get(&id) {
            Some(at) => Some(*at),
            None => None,
        };
        match found {
            Some(at) => {
                buckets[at].1.push(record);
                proof {
                    assert forall|i: int| 0 <= i < buckets@.len() implies (
                    #[trigger] buckets@[i]).1@ == of_domain(next, buckets@[i].0)
                        && buckets@[i].1@.len() > 0 && buckets@[i].0 == before[i].0 by {
                        if i != at {
                            assert(buckets@[i] == before[i]);
                            assert(index@[before[i].0] == i);
                        }
                    }
                }
            },
            None => {
                let room: usize = match stats.get(&id) {
                    Some(known) => if known.count < n_records {
                        known.count
                    } else {
                        n_records
                    },
                    None => 0,
                };
                let mut bucket: Vec<LogRecord> = Vec::with_capacity(room);
                bucket.push(record);
                index.insert(id, buckets.len());
                buckets.push((id, bucket));
                proof {
                    assert forall|i: int| 0 <= i < buckets@.len() implies (
                    #[trigger] buckets@[i]).1@ == of_domain(next, buckets@[i].0)
                        && buckets@[i].1@.len() > 0 by {
                        if i < before.len() {
                            assert(buckets@[i] == before[i]);
                        } else {
                            assert(of_domain(done, id).len() == 0);
                            assert(buckets@[i].1@ =~= of_domain(next, id));
                        }
                    }
                }
            },
        }
        proof {
            assert forall|x: u32| !index@.contains_key(x) implies (#[trigger] of_domain(
                next,
                x,
            )).len() == 0 by {
                assert(x != id);
                assert(of_domain(done, x).len() == 0);
            }
        }
    }
    proof {
        assert(all.take(all.len() as int) =~= all);
        assert forall|i: int| 0 <= i < buckets@.len() implies (#[trigger] buckets@[i]).1@
            == of_domain(all, buckets@[i].0) && buckets@[i].1@.len() > 0 by {}
        assert forall|i: int, j: int| 0 <= i < j < buckets@.len() implies (#[trigger] buckets@[i]).0
            != (#[trigger] buckets@[j]).0 by {
            assert(index@[buckets@[i].0] == i);
            assert(index@[buckets@[j].0] == j);
        }
        assert forall|k: int| 0 <= k < all.len() implies has_bucket(
            buckets@,
            (#[trigger] all[k]).0,
        ) by {
            assert(index@.contains_key(all[k].0));
            let i = index@[all[k].0] as int;
            assert(buckets@[i].0 == all[k].0);
        }
    }
    buckets
}

/// The features of each record of one domain. The records are put into the
/// order of their times first, those of one time in the order in which they
/// came, and then pass through the windows one by one.
pub fn extract_features_for_bucket(
    opts: &ExtractOpts,
    entries: Vec<LogRecord>,
    primary_domain_length: u8,
) -> (rows: Vec<FeatureRow>)
    requires
        all_wf(entries@),
        entries@.len() <= MAX_ENTRIES,
        primary_domain_length <= MAX_PRIMARY_LEN,
        opts.fixed matches Some(size) ==> 0 < size <= MAX_ENTRIES,
    ensures
        rows@.len() == entries@.len(),
        exists|sorted: Seq<LogRecord>|
            is_sorting(sorted, entries@) && forall|i: int|
                0 <= i < rows@.len() ==> (#[trigger] rows@[i]).describes(
                    *opts,
                    sorted.take(i + 1),
                    primary_domain_length,
                ),
{
    let ghost given = entries@;
    let mut entries = entries;
    sort_by_time(&mut entries);
    proof {
        broadcast use vstd::seq_lib::group_to_multiset_ensures;

        assert forall|i: int| 0 <= i < entries@.len() implies (
        #[trigger] entries@[i]).payload.wf() by {
            assert(entries@.contains(entries@[i]));
            assert(entries@.to_multiset().count(entries@[i]) > 0);
            assert(given.contains(entries@[i]));
        }
        assert(entries@.len() == entries@.to_multiset().len());
        assert(given.len() == given.to_multiset().len());
    }
    let ghost sorted = entries@;
    let rows = extract_features_per_domain(opts, entries, primary_domain_length);
    proof {
        assert(is_sorting(sorted, given) && forall|i: int|
            0 <= i < rows@.len() ==> (#[trigger] rows@[i]).describes(
                *opts,
                sorted.take(i + 1),
                primary_domain_length,
            ));
    }
    rows
}

} // verus!
