//! Per-payload features and sliding-window aggregates.

pub mod buckets;
pub mod counting;
pub mod histogram;
pub mod payload;
pub mod sliding;
pub mod state;
pub mod tally;

use vstd::prelude::*;

use crate::feature_extraction::payload::{payload_features, PayloadFeatureVector};
use crate::feature_extraction::sliding::{
    fixed_run, lemma_time_run_len, open_space_for, payloads, time_run, FixedWindow,
    FixedWindowFeatureVector, TimeWindow, TimeWindowFeatureVector, MAX_PRIMARY_LEN,
};
use crate::feature_extraction::state::MAX_ENTRIES;
use crate::shared_interface::LogRecord;

verus! {

/// The features of one query in one of the modes of extraction.
#[derive(Debug, Clone, PartialEq, Eq)]
pub enum FeatureVector {
    Payload(PayloadFeatureVector),
    Time(TimeWindowFeatureVector),
    Fixed(FixedWindowFeatureVector),
}

/// The modes of extraction that are switched on: the features of the
/// payload alone, those of a window of a duration in ticks, those of a
/// window of a number of entries.
#[derive(Debug, Clone, Copy, PartialEq, Eq)]
pub struct ExtractOpts {
    pub payload: bool,
    pub time: Option<u64>,
    pub fixed: Option<usize>,
}

/// The features of one query, in each mode that is switched on.
#[derive(Debug, Clone, PartialEq, Eq)]
pub struct FeatureRow {
    pub payload: Option<PayloadFeatureVector>,
    pub time: Option<TimeWindowFeatureVector>,
    pub fixed: Option<FixedWindowFeatureVector>,
}

/// The payloads of `queries`, each as its labels, in order.
pub open spec fn payload_views(queries: Seq<LogRecord>) -> Seq<Seq<Seq<u8>>> {
    queries.map_values(|r: LogRecord| r.payload@)
}

/// The times and payloads of `queries`, in order.
pub open spec fn timed_views(queries: Seq<LogRecord>) -> Seq<(i64, Seq<Seq<u8>>)> {
    queries.map_values(|r: LogRecord| (r.ts, r.payload@))
}

/// Whether every payload of `queries` is well formed.
pub open spec fn all_wf(queries: Seq<LogRecord>) -> bool {
    forall|i: int| 0 <= i < queries.len() ==> (#[trigger] queries[i]).payload.wf()
}

impl FeatureRow {
    /// Whether these are the features of the last of `queries`, after all of
    /// them have passed through the windows, in each mode that `opts`
    /// switches on, and nothing in the others.
    pub open spec fn describes(
        &self,
        opts: ExtractOpts,
        queries: Seq<LogRecord>,
        primary_domain_length: u8,
    ) -> bool {
        let last = queries.last();
        let open_space = open_space_for(primary_domain_length);
        &&& self.payload is Some <==> opts.payload
        &&& self.payload matches Some(fv) ==> fv.describes(
            last.id,
            last.payload@,
            last.payload.payload_len,
            open_space,
        )
        &&& self.time is Some <==> opts.time is Some
        &&& self.time matches Some(fv) ==> fv.describes(
            last.id,
            payloads(time_run(opts.time.unwrap(), timed_views(queries))),
            open_space,
            opts.time.unwrap(),
        )
        &&& self.fixed is Some <==> opts.fixed is Some
        &&& self.fixed matches Some(fv) ==> fv.describes(
            last.id,
            fixed_run(opts.fixed.unwrap(), payload_views(queries)),
            open_space,
        )
    }
}

impl PayloadFeatureVector {
    /// The features of the payload of each of `queries`.
    pub fn extract_for_domain(queries: Vec<LogRecord>, primary_domain_length: u8) -> (r: Vec<
        FeatureVector,
    >)
        requires
            all_wf(queries@),
            primary_domain_length <= MAX_PRIMARY_LEN,
        ensures
            r@.len() == queries@.len(),
            forall|i: int|
                0 <= i < r@.len() ==> (#[trigger] r@[i] matches FeatureVector::Payload(fv)
                    && fv.describes(
                    queries@[i].id,
                    queries@[i].payload@,
                    queries@[i].payload.payload_len,
                    open_space_for(primary_domain_length),
                )),
    {
        let mut r: Vec<FeatureVector> = Vec::with_capacity(queries.len());
        let mut i: usize = 0;
        while i < queries.len()
            invariant
                i <= queries.len(),
                all_wf(queries@),
                primary_domain_length <= MAX_PRIMARY_LEN,
                r@.len() == i,
                forall|j: int|
                    0 <= j < i ==> (#[trigger] r@[j] matches FeatureVector::Payload(fv)
                        && fv.describes(
                        queries@[j].id,
                        queries@[j].payload@,
                        queries@[j].payload.payload_len,
                        open_space_for(primary_domain_length),
                    )),
            decreases queries.len() - i,
        {
            let record = &queries[i];
            r.push(
                FeatureVector::Payload(
                    payload_features(record.id, &record.payload, primary_domain_length),
                ),
            );
            i += 1;
        }
        r
    }
}

impl TimeWindowFeatureVector {
    /// The features of a window of the duration `duration` after each of
    /// `queries`, which pass through it in their order.
    pub fn extract_for_domain(duration: u64, queries: Vec<LogRecord>, primary_domain_length: u8) -> (r:
        Vec<FeatureVector>)
        requires
            all_wf(queries@),
            queries@.len() <= MAX_ENTRIES,
            primary_domain_length <= MAX_PRIMARY_LEN,
        ensures
            r@.len() == queries@.len(),
            forall|i: int|
                0 <= i < r@.len() ==> (#[trigger] r@[i] matches FeatureVector::Time(fv)
                    && fv.describes(
                    queries@[i].id,
                    payloads(time_run(duration, timed_views(queries@.take(i + 1)))),
                    open_space_for(primary_domain_length),
                    duration,
                )),
    {
        let mut time_window = TimeWindow::new(duration, primary_domain_length);
        let mut r: Vec<FeatureVector> = Vec::with_capacity(queries.len());
        let mut i: usize = 0;
        proof {
            assert(timed_views(queries@.take(0)) =~= Seq::<(i64, Seq<Seq<u8>>)>::empty());
        }
        while i < queries.len()
            invariant
                i <= queries.len(),
                all_wf(queries@),
                queries@.len() <= MAX_ENTRIES,
                time_window.wf(),
                time_window.duration() == duration,
                time_window.open_space() == open_space_for(primary_domain_length),
                time_window@ == time_run(duration, timed_views(queries@.take(i as int))),
                r@.len() == i,
                forall|j: int|
                    0 <= j < i ==> (#[trigger] r@[j] matches FeatureVector::Time(fv)
                        && fv.describes(
                        queries@[j].id,
                        payloads(time_run(duration, timed_views(queries@.take(j + 1)))),
                        open_space_for(primary_domain_length),
                        duration,
                    )),
            decreases queries.len() - i,
        {
            let record = &queries[i];
            proof {
                lemma_time_run_len(duration, timed_views(queries@.take(i as int)));
                let next = timed_views(queries@.take(i + 1));
                assert(next.drop_last() =~= timed_views(queries@.take(i as int)));
                assert(next.last() == (record.ts, record.payload@));
            }
            let fv = time_window.process_entry(record.id, record.ts, record.payload.duplicate());
            r.push(FeatureVector::Time(fv));
            i += 1;
        }
        r
    }
}

impl FixedWindowFeatureVector {
    /// The features of a window of `size` entries after each of `queries`,
    /// which pass through it in their order.
    pub fn extract_for_domain(size: usize, queries: Vec<LogRecord>, primary_domain_length: u8) -> (r:
        Vec<FeatureVector>)
        requires
            all_wf(queries@),
            0 < size <= MAX_ENTRIES,
            primary_domain_length <= MAX_PRIMARY_LEN,
        ensures
            r@.len() == queries@.len(),
            forall|i: int|
                0 <= i < r@.len() ==> (#[trigger] r@[i] matches FeatureVector::Fixed(fv)
                    && fv.describes(
                    queries@[i].id,
                    fixed_run(size, payload_views(queries@.take(i + 1))),
                    open_space_for(primary_domain_length),
                )),
    {
        let mut fixed_window = FixedWindow::new(size, primary_domain_length);
        let mut r: Vec<FeatureVector> = Vec::with_capacity(queries.len());
        let mut i: usize = 0;
        proof {
            assert(payload_views(queries@.take(0)) =~= Seq::<Seq<Seq<u8>>>::empty());
        }
        while i < queries.len()
            invariant
                i <= queries.len(),
                all_wf(queries@),
                fixed_window.wf(),
                fixed_window.size() == size,
                fixed_window.open_space() == open_space_for(primary_domain_length),
                fixed_window@ == fixed_run(size, payload_views(queries@.take(i as int))),
                r@.len() == i,
                forall|j: int|
                    0 <= j < i ==> (#[trigger] r@[j] matches FeatureVector::Fixed(fv)
                        && fv.describes(
                        queries@[j].id,
                        fixed_run(size, payload_views(queries@.take(j + 1))),
                        open_space_for(primary_domain_length),
                    )),
            decreases queries.len() - i,
        {
            let record = &queries[i];
            proof {
                let next = payload_views(queries@.take(i + 1));
                assert(next.drop_last() =~= payload_views(queries@.take(i as int)));
                assert(next.last() == record.payload@);
            }
            let fv = fixed_window.process_entry(record.id, record.payload.duplicate());
            r.push(FeatureVector::Fixed(fv));
            i += 1;
        }
        r
    }
}

/// The features of each of `queries`, which belong to one primary domain and
/// pass through the windows in their order, in every mode that `opts`
/// switches on.
pub fn extract_features_per_domain(
    opts: &ExtractOpts,
    queries: Vec<LogRecord>,
    primary_domain_length: u8,
) -> (rows: Vec<FeatureRow>)
    requires
        all_wf(queries@),
        queries@.len() <= MAX_ENTRIES,
        primary_domain_length <= MAX_PRIMARY_LEN,
        opts.fixed matches Some(size) ==> 0 < size <= MAX_ENTRIES,
    ensures
        rows@.len() == queries@.len(),
        forall|i: int|
            0 <= i < rows@.len() ==> (#[trigger] rows@[i]).describes(
                *opts,
                queries@.take(i + 1),
                primary_domain_length,
            ),
{
    let mut time_window: Option<TimeWindow> = match opts.time {
        Some(duration) => Some(TimeWindow::new(duration, primary_domain_length)),
        None => None,
    };
    let mut fixed_window: Option<FixedWindow> = match opts.fixed {
        Some(size) => Some(FixedWindow::new(size, primary_domain_length)),
        None => None,
    };
    let mut rows: Vec<FeatureRow> = Vec::with_capacity(queries.len());
    let mut i: usize = 0;
    proof {
        assert(timed_views(queries@.take(0)) =~= Seq::<(i64, Seq<Seq<u8>>)>::empty());
        assert(payload_views(queries@.take(0)) =~= Seq::<Seq<Seq<u8>>>::empty());
    }
    while i < queries.len()
        invariant
            i <= queries.len(),
            all_wf(queries@),
            queries@.len() <= MAX_ENTRIES,
            primary_domain_length <= MAX_PRIMARY_LEN,
            time_window is Some <==> opts.time is Some,
            time_window matches Some(w) ==> w.wf() && w.duration() == opts.time.unwrap()
                && w.open_space() == open_space_for(primary_domain_length) && w@ == time_run(
                opts.time.unwrap(),
                timed_views(queries@.take(i as int)),
            ),
            fixed_window is Some <==> opts.fixed is Some,
            fixed_window matches Some(w) ==> w.wf() && w.size() == opts.fixed.unwrap()
                && w.open_space() == open_space_for(primary_domain_length) && w@ == fixed_run(
                opts.fixed.unwrap(),
                payload_views(queries@.take(i as int)),
            ),
            rows@.len() == i,
            forall|j: int|
                0 <= j < i ==> (#[trigger] rows@[j]).describes(
                    *opts,
                    queries@.take(j + 1),
                    primary_domain_length,
                ),
        decreases queries.len() - i,
    {
        let record = &queries[i];
        proof {
            let timed = timed_views(queries@.take(i + 1));
            assert(timed.drop_last() =~= timed_views(queries@.take(i as int)));
            assert(timed.last() == (record.ts, record.payload@));
            let plain = payload_views(queries@.take(i + 1));
            assert(plain.drop_last() =~= payload_views(queries@.take(i as int)));
            assert(plain.last() == record.payload@);
            assert(queries@.take(i + 1).last() == *record);
            if opts.time is Some {
                lemma_time_run_len(opts.time.unwrap(), timed_views(queries@.take(i as int)));
            }
        }
        let payload = if opts.payload {
            Some(payload_features(record.id, &record.payload, primary_domain_length))
        } else {
            None
        };
        let time = match time_window {
            Some(mut w) => {
                let fv = w.process_entry(record.id, record.ts, record.payload.duplicate());
                time_window = Some(w);
                Some(fv)
            },
            None => {
                time_window = None;
                None
            },
        };
        let fixed = match fixed_window {
            Some(mut w) => {
                let fv = w.process_entry(record.id, record.payload.duplicate());
                fixed_window = Some(w);
                Some(fv)
            },
            None => {
                fixed_window = None;
                None
            },
        };
        rows.push(FeatureRow { payload, time, fixed });
        i += 1;
    }
    rows
}

} // verus!
