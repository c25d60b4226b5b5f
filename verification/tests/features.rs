use dns_features::feature_extraction::buckets::{bucket_records, extract_features_for_bucket};
use dns_features::feature_extraction::histogram::Distribution;
use dns_features::feature_extraction::payload::{payload_features, PayloadFeatureVector};
use dns_features::feature_extraction::sliding::{
    FixedWindow, FixedWindowFeatureVector, Ratio, TimeWindow, TimeWindowFeatureVector,
};
use dns_features::feature_extraction::state::WindowState;
use dns_features::feature_extraction::{
    extract_features_per_domain, ExtractOpts, FeatureRow, FeatureVector,
};
use dns_features::parse_dns::DnsPayload;
use dns_features::shared_interface::{LogRecord, PrimaryDomainStats};
use std::collections::HashMap;

/// The ticks of a second in these tests.
const TICKS: f32 = 1000.0;

fn quotient(r: Ratio) -> f32 {
    r.num as f32 / r.den as f32
}

fn per_second(r: Ratio) -> f32 {
    r.num as f32 / (r.den as f32 / TICKS)
}

fn entropy(d: &Distribution) -> f32 {
    let total = d.total as f64;
    (d.counts
        .iter()
        .fold(0.0, |acc: f64, &c| {
            let c = c as f64;
            acc + (c * (c / total).ln())
        })
        .abs()
        / (total * std::f64::consts::LN_2)) as f32
}

fn payload(labels: &[&[u8]]) -> DnsPayload {
    let labels: Vec<Vec<u8>> = labels.iter().map(|l| l.to_vec()).collect();
    let len = labels.iter().map(|l| l.len()).sum::<usize>() + labels.len() - 1;
    DnsPayload { labels, payload_len: len as u8 }
}

#[derive(Debug, PartialEq)]
struct PayloadFloats {
    id: usize,
    n_unique: u8,
    ratio_unique: f32,
    n_digits: u8,
    n_invalid: u8,
    n_labels: u8,
    avg_label_length: f32,
    max_label_length: u8,
    entropy: f32,
    fill_ratio: f32,
}

fn payload_floats(fv: &PayloadFeatureVector) -> PayloadFloats {
    PayloadFloats {
        id: fv.id,
        n_unique: fv.n_unique,
        ratio_unique: quotient(fv.ratio_unique),
        n_digits: fv.n_digits,
        n_invalid: fv.n_invalid,
        n_labels: fv.n_labels,
        avg_label_length: quotient(fv.avg_label_length),
        max_label_length: fv.max_label_length,
        entropy: entropy(&fv.entropy),
        fill_ratio: quotient(fv.fill_ratio),
    }
}

#[derive(Debug, PartialEq)]
struct FixedFloats {
    id: usize,
    n_unique_labels: usize,
    entropy: f32,
    avg_unique_label_length: f32,
    unique_fill_ratio: f32,
    max_label_length: u8,
    unique_query_ratio: f32,
}

fn fixed_floats(fv: &FixedWindowFeatureVector) -> FixedFloats {
    FixedFloats {
        id: fv.id,
        n_unique_labels: fv.n_unique_labels,
        entropy: entropy(&fv.entropy),
        avg_unique_label_length: quotient(fv.avg_unique_label_length),
        unique_fill_ratio: quotient(fv.unique_fill_ratio),
        max_label_length: fv.max_label_length,
        unique_query_ratio: quotient(fv.unique_query_ratio),
    }
}

#[derive(Debug, PartialEq)]
struct TimeFloats {
    id: usize,
    n_unique_labels: usize,
    unique_query_rate: f32,
    entropy: f32,
    unique_transfer_rate: f32,
    avg_unique_label_length: f32,
    unique_fill_ratio: f32,
    max_label_length: u8,
    unique_query_ratio: f32,
}

fn time_floats(fv: &TimeWindowFeatureVector) -> TimeFloats {
    TimeFloats {
        id: fv.id,
        n_unique_labels: fv.n_unique_labels,
        unique_query_rate: per_second(fv.unique_query_rate),
        entropy: entropy(&fv.entropy),
        unique_transfer_rate: per_second(fv.unique_transfer_rate),
        avg_unique_label_length: quotient(fv.avg_unique_label_length),
        unique_fill_ratio: quotient(fv.unique_fill_ratio),
        max_label_length: fv.max_label_length,
        unique_query_ratio: quotient(fv.unique_query_ratio),
    }
}

#[test]
fn smoke_test() {
    let payload = DnsPayload {
        labels: vec![b"aabbcc".to_vec(), b"0011223344".to_vec()],
        payload_len: 17,
    };
    let prim_len = 10;

    let expected = PayloadFloats {
        id: 0,
        n_unique: 8,
        ratio_unique: 0.5,
        n_digits: 10,
        n_invalid: 0,
        n_labels: 2,
        avg_label_length: 8.0,
        max_label_length: 10,
        entropy: 3.0,
        fill_ratio: 0.07024793388429752066115702479339,
    };

    assert_eq!(expected, payload_floats(&payload_features(0, &payload, prim_len)));
}

#[test]
fn smoke_test_fixed() {
    let mut window = FixedWindow::new(2, 10);

    let payload_1 = DnsPayload {
        labels: vec![b"aabbcc".to_vec(), b"0011223344".to_vec()],
        payload_len: 17,
    };

    let payload_2 = DnsPayload {
        labels: vec![b"aa".to_vec(), b"00".to_vec()],
        payload_len: 5,
    };

    let expected_1 = FixedFloats {
        id: 1,
        n_unique_labels: 2,
        entropy: 3.0,
        avg_unique_label_length: 8.0,
        unique_fill_ratio: 0.07024793388429752066115702479339,
        max_label_length: 10,
        unique_query_ratio: 1.0,
    };

    let expected_2 = FixedFloats {
        id: 2,
        n_unique_labels: 4,
        entropy: 2.9219280948873623,
        avg_unique_label_length: 5.0,
        unique_fill_ratio: 0.0454545454545454545454,
        max_label_length: 10,
        unique_query_ratio: 1.0,
    };

    assert_eq!(expected_1, fixed_floats(&window.process_entry(1, payload_1)));
    assert_eq!(expected_2, fixed_floats(&window.process_entry(2, payload_2)));
}

#[test]
fn smoke_test_time() {
    let mut window = TimeWindow::new(1000, 10);

    let payload_1 = DnsPayload {
        labels: vec![b"aabbcc".to_vec(), b"0011223344".to_vec()],
        payload_len: 17,
    };

    let payload_2 = DnsPayload {
        labels: vec![b"aa".to_vec(), b"00".to_vec()],
        payload_len: 5,
    };

    let payload_3 = DnsPayload {
        labels: vec![b"aabbcc".to_vec(), b"0011223344".to_vec()],
        payload_len: 17,
    };

    let expected_1 = TimeFloats {
        id: 1,
        n_unique_labels: 2,
        unique_query_rate: 1.0,
        entropy: 3.0,
        unique_transfer_rate: 16.0,
        avg_unique_label_length: 8.0,
        unique_fill_ratio: 0.07024793388429752066115702479339,
        max_label_length: 10,
        unique_query_ratio: 1.0,
    };

    let expected_2 = TimeFloats {
        id: 2,
        n_unique_labels: 4,
        unique_query_rate: 2.0,
        entropy: 2.9219280948873623,
        unique_transfer_rate: 20.0,
        avg_unique_label_length: 5.0,
        unique_fill_ratio: 0.0454545454545454545454,
        max_label_length: 10,
        unique_query_ratio: 1.0,
    };

    let first = window.process_entry(1, 0, payload_1);
    assert_eq!(expected_1, time_floats(&first));
    assert_eq!(expected_2, time_floats(&window.process_entry(2, 100, payload_2)));

    // Same as payload 1, but later and outside previous window, should produce same result
    let third = window.process_entry(1, 10000, payload_3);
    assert_eq!(expected_1, time_floats(&third));
    assert_eq!(first, third);
}

#[test]
fn expire_time() {
    let mut window = TimeWindow::new(1000, 10);
    assert_eq!(0, window.len());

    window.process_entry(1, 0, DnsPayload { labels: vec![b"a".to_vec()], payload_len: 1 });
    assert_eq!(1, window.len());

    window.process_entry(1, 1000, DnsPayload { labels: vec![b"a".to_vec()], payload_len: 1 });
    assert_eq!(2, window.len());

    window.process_entry(1, 10000, DnsPayload { labels: vec![b"a".to_vec()], payload_len: 1 });
    assert_eq!(1, window.len());

    window.process_entry(1, 10100, DnsPayload { labels: vec![b"a".to_vec()], payload_len: 1 });
    assert_eq!(2, window.len());

    window.process_entry(1, 15000, DnsPayload { labels: vec![b"a".to_vec()], payload_len: 1 });
    assert_eq!(1, window.len());
}

#[test]
fn expire_fixed() {
    let mut window = FixedWindow::new(2, 10);
    assert_eq!(0, window.len());

    window.process_entry(1, DnsPayload { labels: vec![b"a".to_vec()], payload_len: 1 });
    assert_eq!(1, window.len());

    window.process_entry(1, DnsPayload { labels: vec![b"a".to_vec()], payload_len: 1 });
    assert_eq!(2, window.len());

    window.process_entry(1, DnsPayload { labels: vec![b"a".to_vec()], payload_len: 1 });
    assert_eq!(2, window.len());

    window.process_entry(1, DnsPayload { labels: vec![b"a".to_vec()], payload_len: 1 });
    assert_eq!(2, window.len());
}

#[test]
fn payload_character_classes() {
    let p = payload(&[b"aZ-_09", b"x y", &[0xc3, 0xa4, b'!', b'.', b'a']]);
    let fv = payload_features(7, &p, 0);
    assert_eq!(fv.id, 7);
    assert_eq!(fv.n_labels, 3);
    assert_eq!(fv.n_digits, 2);
    // space, the two bytes from 128 up and the exclamation mark
    assert_eq!(fv.n_invalid, 4);
    // the dot is not counted: 13 of the 14 bytes are
    assert_eq!(fv.entropy.total, 13);
    assert_eq!(fv.ratio_unique, Ratio { num: 12, den: 13 });
    assert_eq!(fv.n_unique, 12);
    assert_eq!(fv.avg_label_length, Ratio { num: 14, den: 3 });
    assert_eq!(fv.max_label_length, 6);
    assert_eq!(fv.fill_ratio, Ratio { num: 16, den: 252 });
    // bytes from 128 up first (0xa4, 0xc3), then the others in their order
    assert_eq!(fv.entropy.counts, vec![1, 1, 1, 1, 1, 1, 1, 1, 1, 2, 1, 1]);
}

#[test]
fn payload_space_may_be_nothing() {
    let fv = payload_features(0, &payload(&[b"a"]), 252);
    assert_eq!(fv.fill_ratio, Ratio { num: 1, den: 0 });
    assert!(quotient(fv.fill_ratio).is_infinite());
}

#[test]
fn state_counts_payloads_labels_and_bytes() {
    let mut ws = WindowState::new();
    assert_eq!(ws.n_queries, 0);
    assert_eq!(ws.max_label_len, 0);
    let a = payload(&[b"ab", b"ab", b"c d"]);
    let b = payload(&[b"ab"]);
    ws.add(&a);
    ws.add(&b);
    ws.add(&a);
    assert_eq!(ws.n_queries, 3);
    assert_eq!(ws.unique_queries.len(), 2);
    assert_eq!(ws.unique_queries[&a.labels], 2);
    assert_eq!(ws.n_labels, 7);
    assert_eq!(ws.unique_labels.len(), 2);
    assert_eq!(ws.unique_labels[&b"ab".to_vec()], 5);
    assert_eq!(ws.unique_labels[&b"c d".to_vec()], 2);
    assert_eq!(ws.total_label_len, 16);
    assert_eq!(ws.total_unique_label_len, 5);
    assert_eq!(ws.total_unique_query_len, 11);
    assert_eq!(ws.max_label_len, 3);
    assert_eq!(ws.n_unique_queries(), 2);
    assert_eq!(ws.n_unique_labels(), 2);
    let d = ws.get_entropy();
    assert_eq!(d.total, 16);
    // the space first, then a, b, c, d
    assert_eq!(d.counts, vec![2, 5, 5, 2, 2]);
}

fn fields(ws: &WindowState) -> (usize, usize, usize, usize, usize, usize, usize, usize, Vec<usize>, Vec<usize>) {
    (
        ws.n_queries,
        ws.unique_queries.len(),
        ws.n_labels,
        ws.unique_labels.len(),
        ws.total_label_len,
        ws.total_unique_label_len,
        ws.total_unique_query_len,
        ws.max_label_len,
        ws.histogram.ascii_map.clone(),
        ws.histogram.char_map.clone(),
    )
}

#[test]
fn add_then_remove_restores_every_field() {
    let mut ws = WindowState::new();
    ws.add(&payload(&[b"aaaaaaaaaa", b"bbbbbbbbb"]));
    ws.add(&payload(&[b"x", b"\xff\x00"]));
    let before = fields(&ws);
    let queries = ws.unique_queries.clone();
    let labels = ws.unique_labels.clone();
    let p = payload(&[b"cccccccccc", b"x", b"cccccccccc", b"new-label"]);
    // in, in, out, in, out, out
    ws.add(&p);
    ws.add(&p);
    ws.remove(&p);
    assert_eq!(ws.n_queries, 3);
    ws.add(&p);
    ws.remove(&p);
    ws.remove(&p);
    assert_eq!(before, fields(&ws));
    assert_eq!(queries, ws.unique_queries);
    assert_eq!(labels, ws.unique_labels);
    assert_eq!(ws.max_label_len, 10);
}

#[test]
fn longest_label_is_found_again() {
    let mut ws = WindowState::new();
    let long = payload(&[b"aabbcc", b"0011223344"]);
    let short = payload(&[b"aa", b"00"]);
    ws.add(&long);
    ws.add(&short);
    assert_eq!(ws.max_label_len, 10);
    ws.remove(&long);
    assert_eq!(ws.max_label_len, 2);
    assert_eq!(ws.unique_labels.len(), 2);
    ws.remove(&short);
    assert_eq!(ws.max_label_len, 0);
    assert_eq!(fields(&ws), fields(&WindowState::new()));
}

#[test]
fn longest_label_stays_while_one_is_left() {
    let mut ws = WindowState::new();
    ws.add(&payload(&[b"aaaaaaaaaa"]));
    ws.add(&payload(&[b"bbbbbbbbb"]));
    ws.add(&payload(&[b"cccccccccc"]));
    ws.remove(&payload(&[b"cccccccccc"]));
    assert_eq!(ws.max_label_len, 10);
    ws.remove(&payload(&[b"aaaaaaaaaa"]));
    assert_eq!(ws.max_label_len, 9);
}

#[test]
fn fixed_window_holds_the_last_entries() {
    let mut window = FixedWindow::new(3, 11);
    let names: [&[u8]; 5] = [b"a", b"bb", b"ccc", b"dddd", b"eeeee"];
    let mut last = None;
    for (i, name) in names.iter().enumerate() {
        last = Some(window.process_entry(i, payload(&[name])));
        assert_eq!(window.len(), (i + 1).min(3));
    }
    // what is left is what three entries alone give
    let mut fresh = FixedWindow::new(3, 11);
    let mut expected = None;
    for name in &names[2..] {
        expected = Some(fresh.process_entry(4, payload(&[name])));
    }
    assert_eq!(last, expected);
    let fv = last.unwrap();
    assert_eq!(fv.n_unique_labels, 3);
    assert_eq!(fv.entropy.total, 12);
    assert_eq!(fv.entropy.counts, vec![3, 4, 5]);
    assert_eq!(fv.avg_unique_label_length, Ratio { num: 12, den: 3 });
    assert_eq!(fv.unique_fill_ratio, Ratio { num: 12, den: 241 * 3 });
    assert_eq!(fv.unique_query_ratio, Ratio { num: 3, den: 3 });
    assert_eq!(fv.max_label_length, 5);
}

#[test]
fn fixed_window_of_one() {
    let mut window = FixedWindow::new(1, 0);
    window.process_entry(0, payload(&[b"abc"]));
    let fv = window.process_entry(1, payload(&[b"z"]));
    assert_eq!(window.len(), 1);
    assert_eq!(fv.entropy.counts, vec![1]);
    assert_eq!(fv.max_label_length, 1);
}

#[test]
fn time_window_keeps_what_is_not_older_than_its_duration() {
    let mut window = TimeWindow::new(10, 10);
    window.process_entry(0, 0, payload(&[b"a"]));
    window.process_entry(1, 5, payload(&[b"b"]));
    // an entry at the very duration is kept
    let fv = window.process_entry(2, 10, payload(&[b"c"]));
    assert_eq!(window.len(), 3);
    assert_eq!(fv.n_unique_labels, 3);
    // one tick later it is gone
    let fv = window.process_entry(3, 11, payload(&[b"d"]));
    assert_eq!(window.len(), 3);
    assert_eq!(fv.entropy.counts, vec![1, 1, 1]);
    assert_eq!(fv.unique_query_rate, Ratio { num: 3, den: 10 });
    assert_eq!(fv.unique_transfer_rate, Ratio { num: 3, den: 10 });
    let fv = window.process_entry(4, 100, payload(&[b"a"]));
    assert_eq!(window.len(), 1);
    assert_eq!(fv.n_unique_labels, 1);
}

#[test]
fn time_window_stops_at_the_first_entry_in_range() {
    let mut window = TimeWindow::new(10, 10);
    window.process_entry(0, 50, payload(&[b"a"]));
    window.process_entry(1, 0, payload(&[b"b"]));
    // the entry of the time 0 stands behind one that is in range
    window.process_entry(2, 55, payload(&[b"c"]));
    assert_eq!(window.len(), 3);
}

#[test]
fn time_window_with_extreme_times() {
    let mut window = TimeWindow::new(u64::MAX, 10);
    window.process_entry(0, i64::MIN, payload(&[b"a"]));
    window.process_entry(1, i64::MAX, payload(&[b"b"]));
    assert_eq!(window.len(), 2);
    let mut window = TimeWindow::new(0, 10);
    window.process_entry(0, i64::MIN, payload(&[b"a"]));
    window.process_entry(1, i64::MIN, payload(&[b"b"]));
    assert_eq!(window.len(), 2);
    let fv = window.process_entry(2, i64::MAX, payload(&[b"c"]));
    assert_eq!(window.len(), 1);
    assert!(per_second(fv.unique_query_rate).is_infinite());
}

fn record(id: usize, ts: i64, labels: &[&[u8]]) -> LogRecord {
    LogRecord { id, ts, payload: payload(labels) }
}

#[test]
fn rows_carry_each_mode_that_is_on() {
    let queries = vec![record(0, 0, &[b"aabbcc", b"0011223344"]), record(1, 100, &[b"aa", b"00"])];
    let all = ExtractOpts { payload: true, time: Some(1000), fixed: Some(2) };
    let rows = extract_features_per_domain(&all, queries.clone(), 10);
    assert_eq!(rows.len(), 2);
    for (row, query) in rows.iter().zip(&queries) {
        assert_eq!(row.payload, Some(payload_features(query.id, &query.payload, 10)));
    }
    let time = TimeWindowFeatureVector::extract_for_domain(1000, queries.clone(), 10);
    let fixed = FixedWindowFeatureVector::extract_for_domain(2, queries.clone(), 10);
    let alone = PayloadFeatureVector::extract_for_domain(queries.clone(), 10);
    for i in 0..2 {
        assert_eq!(FeatureVector::Time(rows[i].time.clone().unwrap()), time[i]);
        assert_eq!(FeatureVector::Fixed(rows[i].fixed.clone().unwrap()), fixed[i]);
        assert_eq!(FeatureVector::Payload(rows[i].payload.clone().unwrap()), alone[i]);
    }
    assert_eq!(time_floats(rows[1].time.as_ref().unwrap()).entropy, 2.9219280948873623);

    let none = ExtractOpts { payload: false, time: None, fixed: None };
    let rows = extract_features_per_domain(&none, queries.clone(), 10);
    assert_eq!(rows, vec![FeatureRow { payload: None, time: None, fixed: None }; 2]);

    let only_fixed = ExtractOpts { payload: false, time: None, fixed: Some(1) };
    let rows = extract_features_per_domain(&only_fixed, queries, 10);
    assert!(rows.iter().all(|r| r.payload.is_none() && r.time.is_none() && r.fixed.is_some()));
    assert_eq!(rows[1].fixed.as_ref().unwrap().n_unique_labels, 2);
}

#[test]
fn records_go_to_the_bucket_of_their_domain() {
    let records = vec![
        (7, record(0, 30, &[b"a"])),
        (3, record(1, 20, &[b"b"])),
        (7, record(2, 10, &[b"c"])),
        (7, record(3, 10, &[b"d"])),
    ];
    let mut stats = HashMap::new();
    stats.insert(7, PrimaryDomainStats { id: 7, length: 11, count: 3 });
    stats.insert(3, PrimaryDomainStats { id: 3, length: 4, count: usize::MAX });
    let buckets = bucket_records(records.clone(), &stats);
    assert_eq!(buckets.len(), bucket_records(records, &HashMap::new()).len());
    assert_eq!(buckets.len(), 2);
    let ids_of = |domain: u32| -> Vec<usize> {
        let bucket = buckets.iter().find(|b| b.0 == domain).unwrap();
        bucket.1.iter().map(|r| r.id).collect()
    };
    assert_eq!(ids_of(7), vec![0, 2, 3]);
    assert_eq!(ids_of(3), vec![1]);
    assert!(bucket_records(vec![], &stats).is_empty());
}

#[test]
fn a_bucket_passes_in_the_order_of_its_times() {
    let entries = vec![
        record(0, 30, &[b"a"]),
        record(1, 10, &[b"b"]),
        record(2, 20, &[b"c"]),
        record(3, 10, &[b"d"]),
    ];
    let opts = ExtractOpts { payload: true, time: None, fixed: Some(2) };
    let rows = extract_features_for_bucket(&opts, entries, 10);
    // the two records of the time 10 keep their order
    let ids: Vec<usize> = rows.iter().map(|r| r.payload.as_ref().unwrap().id).collect();
    assert_eq!(ids, vec![1, 3, 2, 0]);
    // the last window holds the records of the times 20 and 30
    assert_eq!(rows[3].fixed.as_ref().unwrap().entropy.counts, vec![1, 1]);
    assert_eq!(rows[1].fixed.as_ref().unwrap().entropy.total, 2);
}
