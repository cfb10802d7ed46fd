use mzprof::aggregate::{exclusive_times, Aggregator};
use mzprof::collect::{Batch, Data, Update};
use mzprof::encode::{encode_profile, serialize_profile};
use mzprof::pprof::{Profile, ProfileBuilder, StringTable};
use mzprof::text::u64_to_dec;
use mzprof::types::{Address, Error, OpInfo};

use std::io::Read;

fn op(name: &str, addr: &[u64]) -> OpInfo {
    OpInfo { name: String::from(name), address: Address(addr.to_vec()) }
}

fn batch(time: u64, updates: Vec<Update>) -> Batch {
    Batch { time, updates }
}

fn elapsed(id: u64, worker: u64, time: u64, diff: i64) -> Update {
    Update { data: Data::Elapsed(id, worker), time, diff }
}

fn size(id: u64, worker: Option<u64>, time: u64, diff: i64) -> Update {
    Update { data: Data::Size(id, worker), time, diff }
}

fn operator(id: u64, info: OpInfo, time: u64, diff: i64) -> Update {
    Update { data: Data::Operator(id, info), time, diff }
}

fn string_at(p: &Profile, idx: i64) -> &str {
    p.string_table[usize::try_from(idx).unwrap()].as_str()
}

#[test]
fn address_parent_and_ancestors() {
    let a = Address(vec![0, 3, 12]);
    assert_eq!(a.parent().unwrap().0, vec![0, 3]);
    let anc = a.ancestors();
    assert_eq!(anc.len(), 2);
    assert_eq!(anc[0].0, vec![0, 3]);
    assert_eq!(anc[1].0, vec![0]);
    let root = Address(vec![5]);
    assert!(root.parent().is_none());
    assert!(root.ancestors().is_empty());
}

#[test]
fn string_table_determinism() {
    let mut t = StringTable::new();
    assert_eq!(t.insert("a"), 1);
    assert_eq!(t.insert("b"), 2);
    assert_eq!(t.insert("a"), 1);
    let table = t.finish();
    assert_eq!(table, vec![String::new(), String::from("a"), String::from("b")]);
}

#[test]
fn string_table_reserves_empty_string() {
    let mut t = StringTable::new();
    assert_eq!(t.insert(""), 0);
    assert_eq!(t.finish(), vec![String::new()]);
}

#[test]
fn decimal_rendering() {
    assert_eq!(u64_to_dec(0), "0");
    assert_eq!(u64_to_dec(7), "7");
    assert_eq!(u64_to_dec(12345), "12345");
    assert_eq!(u64_to_dec(u64::MAX), u64::MAX.to_string());
}

#[test]
fn exclusive_times_two_level_tree() {
    // Parent cumulative 100ns, one child cumulative 30ns: the parent's
    // exclusive time is 70ns, the leaf child keeps its 30ns.
    let operators = vec![(1u64, op("root", &[0])), (2u64, op("child", &[0, 0]))];
    let elapsed_in = vec![((1u64, 0u64), 100u64), ((2u64, 0u64), 30u64)];
    let out = exclusive_times(&operators, &elapsed_in).unwrap();
    assert_eq!(out, vec![((1, 0), 70), ((2, 0), 30)]);
}

#[test]
fn exclusive_times_flat_tree_is_identity() {
    // Operators with no children keep their cumulative values exactly.
    let operators = vec![(1u64, op("a", &[0])), (2u64, op("b", &[1]))];
    let elapsed_in = vec![((1u64, 0u64), 5u64), ((2u64, 3u64), 9u64)];
    let out = exclusive_times(&operators, &elapsed_in).unwrap();
    assert_eq!(out, elapsed_in);
}

#[test]
fn exclusive_times_respects_worker_boundaries() {
    // A child's time only reduces its parent's time on the same worker.
    let operators = vec![(1u64, op("root", &[0])), (2u64, op("child", &[0, 0]))];
    let elapsed_in = vec![
        ((1u64, 0u64), 100u64),
        ((1u64, 1u64), 80u64),
        ((2u64, 0u64), 30u64),
        ((2u64, 1u64), 10u64),
    ];
    let out = exclusive_times(&operators, &elapsed_in).unwrap();
    assert_eq!(out, vec![((1, 0), 70), ((1, 1), 70), ((2, 0), 30), ((2, 1), 10)]);
}

#[test]
fn exclusive_times_saturates_at_zero() {
    // A child reported as costlier than its parent clamps the parent to
    // zero rather than going negative.
    let operators = vec![(1u64, op("root", &[0])), (2u64, op("child", &[0, 0]))];
    let elapsed_in = vec![((1u64, 0u64), 20u64), ((2u64, 0u64), 30u64)];
    let out = exclusive_times(&operators, &elapsed_in).unwrap();
    assert_eq!(out, vec![((1, 0), 0), ((2, 0), 30)]);
}

#[test]
fn exclusive_times_missing_parent_is_fatal() {
    // The child's parent address [0] has no directory entry.
    let operators = vec![(2u64, op("child", &[0, 0]))];
    let elapsed_in = vec![((2u64, 0u64), 30u64)];
    assert_eq!(exclusive_times(&operators, &elapsed_in), Err(Error::IncompleteDirectory));
}

#[test]
fn exclusive_times_missing_parent_counter_is_fatal() {
    // The parent operator exists, but has no elapsed counter on worker 0.
    let operators = vec![(1u64, op("root", &[0])), (2u64, op("child", &[0, 0]))];
    let elapsed_in = vec![((2u64, 0u64), 30u64)];
    assert_eq!(exclusive_times(&operators, &elapsed_in), Err(Error::IncompleteDirectory));
}

#[test]
fn monotone_counter_filtering() {
    // Elapsed diffs [+50, -50, +80] at one key accumulate to 130ns: the
    // negative diff is dropped, not subtracted.
    let mut agg = Aggregator::new();
    agg.update(batch(10, vec![
        elapsed(1, 0, 1, 50),
        elapsed(1, 0, 2, -50),
        elapsed(1, 0, 3, 80),
    ]));
    let prof = agg.build_pprof().unwrap();
    assert_eq!(prof.sample.len(), 1);
    assert_eq!(prof.sample[0].value, vec![130]);
}

#[test]
fn size_signed_accumulation() {
    // Size diffs [+1024, -200, +50] at one key accumulate to 874.
    let mut agg = Aggregator::new();
    agg.update(batch(10, vec![
        size(1, Some(0), 1, 1024),
        size(1, Some(0), 2, -200),
        size(1, Some(0), 3, 50),
    ]));
    let prof = agg.build_pprof().unwrap();
    assert_eq!(prof.sample.len(), 1);
    assert_eq!(prof.sample[0].value, vec![874]);
}

#[test]
fn sample_type_column_alignment() {
    // A "time" column for operators {1, 2}, then a "size" column for
    // operator {1} only: operator 2 ends with [time, 0], operator 1 with
    // [time, size].
    let mut b = ProfileBuilder::new();
    let time_col = vec![((1u64, 0u64), 100i64), ((2u64, 0u64), 40i64)];
    b.add_samples("time", "nanoseconds", &time_col).unwrap();
    let size_col = vec![((1u64, 0u64), 874i64)];
    b.add_samples("size", "bytes", &size_col).unwrap();
    let prof = b.build();
    assert_eq!(prof.sample_type.len(), 2);
    assert_eq!(prof.sample.len(), 2);
    assert_eq!(prof.sample[0].value, vec![100, 874]);
    assert_eq!(prof.sample[1].value, vec![40, 0]);
}

#[test]
fn unknown_operator_placeholder() {
    // A sample for an id absent from the directory still yields exactly
    // one function, one location and one sample, under a placeholder name.
    let mut b = ProfileBuilder::new();
    let col = vec![((7u64, 0u64), 5i64)];
    b.add_samples("time", "nanoseconds", &col).unwrap();
    let prof = b.build();
    assert_eq!(prof.function.len(), 1);
    assert_eq!(prof.location.len(), 1);
    assert_eq!(prof.sample.len(), 1);
    assert_eq!(prof.function[0].id, 7);
    assert_eq!(string_at(&prof, prof.function[0].name), "<unknown>");
    assert_eq!(prof.sample[0].location_id, vec![7]);
}

#[test]
fn worker_label_holds_decimal_worker_id() {
    let mut b = ProfileBuilder::new();
    let col = vec![((1u64, 42u64), 5i64)];
    b.add_samples("time", "nanoseconds", &col).unwrap();
    let prof = b.build();
    assert_eq!(prof.sample[0].label.len(), 1);
    let label = prof.sample[0].label[0];
    assert_eq!(string_at(&prof, label.key), "worker");
    assert_eq!(string_at(&prof, label.str_), "42");
}

#[test]
fn end_to_end_scenario() {
    // Directory {1: "root" @ [0], 2: "child" @ [0, 0]}; elapsed updates
    // (1, w0, +100ns) and (2, w0, +40ns). Expected samples: operator 2
    // with stack [2, 1] and value 40; operator 1 with stack [1] and 60.
    let mut agg = Aggregator::new();
    agg.update(batch(10, vec![
        operator(1, op("root", &[0]), 1, 1),
        operator(2, op("child", &[0, 0]), 1, 1),
        elapsed(1, 0, 2, 100),
        elapsed(2, 0, 2, 40),
    ]));
    let prof = agg.build_pprof().unwrap();
    assert_eq!(prof.sample.len(), 2);
    let s1 = &prof.sample[0];
    let s2 = &prof.sample[1];
    assert_eq!(s1.location_id, vec![1]);
    assert_eq!(s1.value, vec![60]);
    assert_eq!(s2.location_id, vec![2, 1]);
    assert_eq!(s2.value, vec![40]);
    // The directory produced one function and one location per operator.
    assert_eq!(prof.function.len(), 2);
    assert_eq!(prof.location.len(), 2);
    assert_eq!(string_at(&prof, prof.function[0].name), "root");
    assert_eq!(string_at(&prof, prof.function[1].name), "child");
    // The collection start is the first batch's watermark, in nanoseconds.
    assert_eq!(prof.time_nanos, 10_000_000);
}

#[test]
fn operator_retractions_are_ignored() {
    let mut agg = Aggregator::new();
    agg.update(batch(10, vec![
        operator(1, op("root", &[0]), 1, 1),
        operator(1, op("root", &[0]), 2, -1),
    ]));
    let prof = agg.build_pprof().unwrap();
    assert_eq!(prof.function.len(), 1);
    assert_eq!(string_at(&prof, prof.function[0].name), "root");
}

#[test]
fn sizeless_operator_still_appears() {
    // A size row with a null worker contributes no sample but keeps the
    // operator visible in the call tree.
    let mut agg = Aggregator::new();
    agg.update(batch(10, vec![size(5, None, 1, 1)]));
    let prof = agg.build_pprof().unwrap();
    assert_eq!(prof.sample.len(), 0);
    assert_eq!(prof.function.len(), 1);
    assert_eq!(prof.function[0].id, 5);
    assert_eq!(string_at(&prof, prof.function[0].name), "<unknown>");
}

#[test]
fn small_state_is_within_build_budget() {
    let mut agg = Aggregator::new();
    assert!(agg.within_build_budget());
    agg.update(batch(10, vec![elapsed(1, 0, 1, 50)]));
    assert!(agg.within_build_budget());
}

#[test]
fn empty_columns_are_omitted() {
    let agg = Aggregator::new();
    let prof = agg.build_pprof().unwrap();
    assert_eq!(prof.sample_type.len(), 0);
    assert_eq!(prof.sample.len(), 0);
    assert_eq!(prof.string_table, vec![String::new()]);
    assert_eq!(prof.time_nanos, 0);
}

#[test]
fn build_pprof_incomplete_directory_is_fatal() {
    let mut agg = Aggregator::new();
    agg.update(batch(10, vec![
        operator(2, op("child", &[0, 0]), 1, 1),
        elapsed(2, 0, 2, 40),
    ]));
    assert_eq!(agg.build_pprof().unwrap_err(), Error::IncompleteDirectory);
}

#[test]
fn encode_minimal_profile_bytes() {
    // A profile holding only the reserved empty string encodes as one
    // length-delimited string-table field with an empty payload.
    let agg = Aggregator::new();
    let prof = agg.build_pprof().unwrap();
    let bytes = encode_profile(&prof);
    assert_eq!(bytes, vec![0x32, 0x00]);
}

#[test]
fn encode_small_profile_bytes() {
    let mut agg = Aggregator::new();
    agg.update(batch(1, vec![elapsed(1, 0, 0, 3)]));
    let prof = agg.build_pprof().unwrap();
    let bytes = encode_profile(&prof);
    // sample_type { type = 1, unit = 2 }
    let mut expected: Vec<u8> = vec![0x0a, 0x04, 0x08, 0x01, 0x10, 0x02];
    // sample { location_id = [1] packed, value = [3] packed,
    //          label { key = 4, str = 5 } }
    expected.extend([0x12, 0x0c, 0x0a, 0x01, 0x01, 0x12, 0x01, 0x03, 0x1a, 0x04, 0x08, 0x04,
        0x10, 0x05]);
    // location { id = 1, address = 1, line { function_id = 1 } }
    expected.extend([0x22, 0x08, 0x08, 0x01, 0x18, 0x01, 0x22, 0x02, 0x08, 0x01]);
    // function { id = 1, name = 3 }
    expected.extend([0x2a, 0x04, 0x08, 0x01, 0x10, 0x03]);
    // string_table: "", "time", "nanoseconds", "<unknown>", "worker", "0"
    expected.extend([0x32, 0x00]);
    expected.extend([0x32, 0x04]);
    expected.extend(b"time");
    expected.extend([0x32, 0x0b]);
    expected.extend(b"nanoseconds");
    expected.extend([0x32, 0x09]);
    expected.extend(b"<unknown>");
    expected.extend([0x32, 0x06]);
    expected.extend(b"worker");
    expected.extend([0x32, 0x01]);
    expected.extend(b"0");
    // time_nanos = 1ms = 1_000_000ns
    expected.extend([0x48, 0xc0, 0x84, 0x3d]);
    assert_eq!(bytes, expected);
}

#[test]
fn serialized_profile_round_trips_through_gzip() {
    let mut agg = Aggregator::new();
    agg.update(batch(10, vec![
        operator(1, op("root", &[0]), 1, 1),
        elapsed(1, 0, 2, 100),
    ]));
    let prof = agg.build_pprof().unwrap();
    let raw = encode_profile(&prof);
    let compressed = serialize_profile(&prof);
    assert_ne!(compressed, raw);
    let mut decoder = flate2::read::GzDecoder::new(compressed.as_slice());
    let mut round_trip = Vec::new();
    decoder.read_to_end(&mut round_trip).unwrap();
    assert_eq!(round_trip, raw);
}
