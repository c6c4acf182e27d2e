use std::sync::Arc;
use arrow_array::{
    Array, ArrayRef, Int32Array, Int64Array, TimestampMicrosecondArray, TimestampMillisecondArray,
    TimestampNanosecondArray, TimestampSecondArray,
};
use infino::supertable::error::CommitError;
use infino::supertable::manifest::part::{SuperfileEntry, SuperfileUri};
use infino::supertable::manifest::partition::{
    assign_partition, decode_partition_key, encode_partition_key, scalar_i64_minmax, PartitionKey,
    PartitionStrategy, ScalarCell, ScalarSlot, ScalarStatsTable, ScalarType,
};

// ---- Helpers -----------------------------------------------------------

fn empty_seg() -> SuperfileEntry {
    SuperfileEntry {
        superfile_id: 0,
        uri: SuperfileUri(0),
        n_docs: 0,
        id_min: 0,
        id_max: 0,
        scalar_stats: Vec::new(),
        fts_summary: Vec::new(),
        vector_summary: Vec::new(),
        partition_key: Vec::new(),
        partition_hint: None,
        subsection_offsets: None,
    }
}

fn stats_with(column: &str, min: ScalarCell, max: ScalarCell) -> ScalarStatsTable {
    let mut stats = ScalarStatsTable::new();
    stats.insert(column.to_string(), min, max);
    stats
}

fn array_cell(array: &ArrayRef) -> ScalarCell {
    ScalarCell::of_array(&array.to_data())
}

fn stats_arrays(column: &str, min: ArrayRef, max: ArrayRef) -> ScalarStatsTable {
    stats_with(column, array_cell(&min), array_cell(&max))
}

fn stats_i64(column: &str, min: i64, max: i64) -> ScalarStatsTable {
    let mn: ArrayRef = Arc::new(Int64Array::from(vec![min]));
    let mx: ArrayRef = Arc::new(Int64Array::from(vec![max]));
    stats_arrays(column, mn, mx)
}

fn assert_spans_partition(err: CommitError, needle: &str) {
    match err {
        CommitError::SuperfileSpansPartition { detail } => {
            assert!(detail.contains(needle), "expected `{needle}` in detail; got: {detail}")
        }
        other => panic!("expected SuperfileSpansPartition; got {other:?}"),
    }
}

fn time_range(granularity_secs: i64) -> PartitionStrategy {
    PartitionStrategy::TimeRange { column: "ts".into(), granularity_secs }
}

fn hash(n_buckets: u32) -> PartitionStrategy {
    PartitionStrategy::Hash { column: "_id".into(), n_buckets }
}

fn column_range() -> PartitionStrategy {
    PartitionStrategy::ColumnRange { column: "_id".into(), boundaries: vec![vec![]] }
}

// ---- encode_partition_key ----------------------------------------------

#[test]
fn encode_partition_key_time_range_emits_le_u64() {
    let bytes = encode_partition_key(&PartitionKey::TimeRange(0x01_02_03_04_05_06_07_08));
    assert_eq!(bytes.len(), 8);
    assert_eq!(bytes, 0x01_02_03_04_05_06_07_08u64.to_le_bytes().to_vec());
}

#[test]
fn encode_partition_key_hash_emits_le_u32() {
    let bytes = encode_partition_key(&PartitionKey::Hash(0xCAFEBABE));
    assert_eq!(bytes.len(), 4);
    assert_eq!(bytes, 0xCAFEBABEu32.to_le_bytes().to_vec());
}

#[test]
fn encode_partition_key_column_range_emits_le_u16() {
    let bytes = encode_partition_key(&PartitionKey::ColumnRange(0xDEAD));
    assert_eq!(bytes.len(), 2);
    assert_eq!(bytes, 0xDEADu16.to_le_bytes().to_vec());
}

// ---- decode_partition_key ----------------------------------------------

#[test]
fn decode_partition_key_round_trips_time_range() {
    let original = PartitionKey::TimeRange(42);
    let bytes = encode_partition_key(&original);
    let strategy =
        PartitionStrategy::TimeRange { column: "_id".into(), granularity_secs: 86_400 };
    let decoded = decode_partition_key(&bytes, &strategy).expect("decode");
    assert_eq!(decoded, original);
}

#[test]
fn decode_partition_key_round_trips_hash() {
    let original = PartitionKey::Hash(5);
    let bytes = encode_partition_key(&original);
    let decoded = decode_partition_key(&bytes, &hash(16)).expect("decode");
    assert_eq!(decoded, original);
}

#[test]
fn decode_partition_key_round_trips_column_range() {
    let original = PartitionKey::ColumnRange(3);
    let bytes = encode_partition_key(&original);
    let decoded = decode_partition_key(&bytes, &column_range()).expect("decode");
    assert_eq!(decoded, original);
}

#[test]
fn decode_partition_key_rejects_wrong_size_time_range() {
    let strategy = PartitionStrategy::TimeRange { column: "_id".into(), granularity_secs: 1 };
    let err = decode_partition_key(&[1, 2, 3], &strategy).expect_err("must error");
    match err {
        CommitError::PointerParse(msg) => {
            assert!(msg.contains("TimeRange"), "{msg}");
            assert!(msg.contains("8 bytes"), "{msg}");
        }
        other => panic!("got {other:?}"),
    }
}

#[test]
fn decode_partition_key_rejects_wrong_size_hash() {
    let err = decode_partition_key(&[1, 2, 3], &hash(4)).expect_err("must error");
    match err {
        CommitError::PointerParse(msg) => {
            assert!(msg.contains("Hash"), "{msg}");
            assert!(msg.contains("4 bytes"), "{msg}");
        }
        other => panic!("got {other:?}"),
    }
}

#[test]
fn decode_partition_key_rejects_wrong_size_column_range() {
    let err = decode_partition_key(&[1, 2, 3], &column_range()).expect_err("must error");
    match err {
        CommitError::PointerParse(msg) => {
            assert!(msg.contains("ColumnRange"), "{msg}");
            assert!(msg.contains("2 bytes"), "{msg}");
        }
        other => panic!("got {other:?}"),
    }
}

// ---- assign_partition: TimeRange ---------------------------------------

#[test]
fn assign_partition_time_range_single_bucket() {
    let stats = stats_i64("ts", 100, 80_000);
    let key = assign_partition(&empty_seg(), &stats, &time_range(86_400)).expect("assign");
    assert_eq!(key, PartitionKey::TimeRange(0));
}

#[test]
fn assign_partition_time_range_rejects_segment_spanning_buckets() {
    let stats = stats_i64("ts", 100, 100_000);
    let err = assign_partition(&empty_seg(), &stats, &time_range(86_400)).expect_err("must span");
    assert_spans_partition(err, "spans buckets");
}

#[test]
fn assign_partition_time_range_rejects_zero_granularity() {
    let stats = stats_i64("ts", 0, 0);
    let err = assign_partition(&empty_seg(), &stats, &time_range(0)).expect_err("must reject");
    assert_spans_partition(err, "granularity_secs must be > 0");
}

#[test]
fn assign_partition_time_range_rejects_negative_granularity() {
    let stats = stats_i64("ts", 0, 0);
    let err = assign_partition(&empty_seg(), &stats, &time_range(-1)).expect_err("must reject");
    assert_spans_partition(err, "granularity_secs must be > 0");
}

#[test]
fn assign_partition_time_range_rejects_missing_column_stats() {
    let stats = ScalarStatsTable::new();
    let err =
        assign_partition(&empty_seg(), &stats, &time_range(86_400)).expect_err("missing stats");
    assert_spans_partition(err, "no scalar_stats");
}

#[test]
fn assign_partition_time_range_supports_timestamp_columns() {
    let cases: Vec<(ArrayRef, ArrayRef)> = vec![
        (
            Arc::new(TimestampSecondArray::from(vec![100])),
            Arc::new(TimestampSecondArray::from(vec![200])),
        ),
        (
            Arc::new(TimestampMillisecondArray::from(vec![100])),
            Arc::new(TimestampMillisecondArray::from(vec![200])),
        ),
        (
            Arc::new(TimestampMicrosecondArray::from(vec![100])),
            Arc::new(TimestampMicrosecondArray::from(vec![200])),
        ),
        (
            Arc::new(TimestampNanosecondArray::from(vec![100])),
            Arc::new(TimestampNanosecondArray::from(vec![200])),
        ),
    ];
    for (mn, mx) in cases {
        let stats = stats_arrays("ts", mn, mx);
        let key = assign_partition(&empty_seg(), &stats, &time_range(86_400)).expect("assign");
        assert_eq!(key, PartitionKey::TimeRange(0));
        assert_eq!(scalar_i64_minmax(&empty_seg(), &stats, "ts"), Ok((100, 200)));
    }
}

#[test]
fn assign_partition_time_range_rejects_unsupported_column_type() {
    let mn: ArrayRef = Arc::new(Int32Array::from(vec![100]));
    let mx: ArrayRef = Arc::new(Int32Array::from(vec![200]));
    let stats = stats_arrays("ts", mn, mx);
    let err = assign_partition(&empty_seg(), &stats, &time_range(86_400)).expect_err("unsupported");
    assert_spans_partition(err, "unsupported type");
}

#[test]
fn assign_partition_time_range_rejects_null_stats_array() {
    let nulls: Vec<Option<i64>> = vec![None];
    let mn: ArrayRef = Arc::new(Int64Array::from(nulls.clone()));
    let mx: ArrayRef = Arc::new(Int64Array::from(nulls));
    let stats = stats_arrays("ts", mn, mx);
    let err = assign_partition(&empty_seg(), &stats, &time_range(86_400)).expect_err("null stats");
    assert_spans_partition(err, "empty or null at index 0");
}

#[test]
fn assign_partition_time_range_handles_negative_values_with_div_euclid() {
    // -25 div_euclid 10 = -3; -21 div_euclid 10 = -3.
    let stats = stats_i64("ts", -25, -21);
    let key = assign_partition(&empty_seg(), &stats, &time_range(10)).expect("assign");
    assert_eq!(key, PartitionKey::TimeRange(-3i64 as u64));
    // -5 lies in bucket -1, 5 in bucket 0.
    let stats = stats_i64("ts", -5, 5);
    assert!(assign_partition(&empty_seg(), &stats, &time_range(10)).is_err());
}

#[test]
fn bounds_of_a_column_are_its_last_ones() {
    let mut stats = stats_i64("ts", 1, 2);
    let cell = |value| ScalarCell { data_type: ScalarType::Int64, slot: ScalarSlot::Value(value) };
    stats.insert("ts".to_string(), cell(3), cell(4));
    assert_eq!(scalar_i64_minmax(&empty_seg(), &stats, "ts"), Ok((3, 4)));
}

#[test]
fn a_bound_is_the_first_slot_of_its_array() {
    let array: ArrayRef = Arc::new(Int64Array::from(vec![7, 8]));
    assert_eq!(
        array_cell(&array),
        ScalarCell { data_type: ScalarType::Int64, slot: ScalarSlot::Value(7) }
    );
    let zoned: ArrayRef = Arc::new(TimestampSecondArray::from(vec![-3]).with_timezone("+00:00"));
    assert_eq!(
        array_cell(&zoned),
        ScalarCell { data_type: ScalarType::TimestampSecond, slot: ScalarSlot::Value(-3) }
    );
    let sliced: ArrayRef = array.slice(1, 1);
    assert_eq!(array_cell(&sliced).slot, ScalarSlot::Value(8));
    let empty: ArrayRef = Arc::new(Int64Array::from(Vec::<i64>::new()));
    assert_eq!(array_cell(&empty).slot, ScalarSlot::Missing);
    let narrow: ArrayRef = Arc::new(Int32Array::from(vec![1]));
    assert_eq!(
        array_cell(&narrow),
        ScalarCell { data_type: ScalarType::Other("Int32".to_string()), slot: ScalarSlot::Opaque }
    );
}

#[test]
fn a_bound_without_a_readable_number_is_refused() {
    let opaque = || ScalarCell { data_type: ScalarType::Int64, slot: ScalarSlot::Opaque };
    let stats = stats_with("ts", opaque(), opaque());
    let err = assign_partition(&empty_seg(), &stats, &time_range(86_400)).expect_err("opaque");
    assert_spans_partition(err, "downcast failed");
}

// ---- assign_partition: Hash --------------------------------------------

#[test]
fn assign_partition_hash_single_bucket_short_circuits() {
    let stats = ScalarStatsTable::new();
    let key = assign_partition(&empty_seg(), &stats, &hash(1)).expect("assign");
    assert_eq!(key, PartitionKey::Hash(0));
}

#[test]
fn assign_partition_hash_zero_buckets_treats_as_one() {
    let stats = ScalarStatsTable::new();
    let key = assign_partition(&empty_seg(), &stats, &hash(0)).expect("assign");
    assert_eq!(key, PartitionKey::Hash(0));
}

#[test]
fn assign_partition_hash_uses_partition_hint() {
    let mut seg = empty_seg();
    seg.partition_hint = Some(2);
    let key = assign_partition(&seg, &ScalarStatsTable::new(), &hash(4)).expect("assign");
    assert_eq!(key, PartitionKey::Hash(2));
}

#[test]
fn assign_partition_hash_requires_hint_when_multi_bucket() {
    let err =
        assign_partition(&empty_seg(), &ScalarStatsTable::new(), &hash(4)).expect_err("must reject");
    assert_spans_partition(err, "requires pre-sharded");
}

#[test]
fn assign_partition_hash_rejects_out_of_range_hint() {
    let mut seg = empty_seg();
    seg.partition_hint = Some(4); // == n_buckets, off-by-one
    let err =
        assign_partition(&seg, &ScalarStatsTable::new(), &hash(4)).expect_err("out of range");
    assert_spans_partition(err, "out of range");
}

// ---- assign_partition: ColumnRange -------------------------------------

#[test]
fn assign_partition_column_range_is_not_yet_supported() {
    let err = assign_partition(&empty_seg(), &ScalarStatsTable::new(), &column_range())
        .expect_err("not impl");
    assert_spans_partition(err, "ColumnRange partition assignment lands");
}
