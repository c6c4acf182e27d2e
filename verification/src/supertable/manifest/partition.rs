//! Which partition a superfile belongs to. Superfiles of one partition share
//! a manifest part, so a commit to one partition rewrites one part.

use vstd::prelude::*;
use vstd::string::StringExecFns;
use crate::numbers::{le_bytes, le_value, lemma_byte_spans, lemma_le_reads_back, push_le, read_le};
use crate::ids::{uuid_chars, uuid_text};
use crate::supertable::error::{CommitError, CommitFault};
use crate::supertable::manifest::part::SuperfileEntry;
use crate::text::{
    decimal, push_decimal, push_signed_decimal, quoted, quoted_chars, same_text, signed_decimal,
};

verus! {

/// A partition.
#[derive(Debug, Clone, Copy, PartialEq, Eq, Hash, Structural)]
pub enum PartitionKey {
    /// Bucket of a time column: its value over the granularity.
    TimeRange(u64),
    /// Bucket of a hashed column.
    Hash(u32),
    /// Index of the boundary interval of a column.
    ColumnRange(u16),
}

/// How a table is partitioned.
#[derive(Debug, Clone, PartialEq, Eq)]
pub enum PartitionStrategy {
    /// Buckets of equal length along a time column.
    TimeRange { column: String, granularity_secs: i64 },
    /// A fixed number of hash buckets of a column.
    Hash { column: String, n_buckets: u32 },
    /// Intervals between boundaries of a column.
    ColumnRange { column: String, boundaries: Vec<Vec<u8>> },
}

// ---- Partition keys as bytes ------------------------------------------------

/// The stored form: 8, 4 or 2 bytes, least significant first.
pub open spec fn key_bytes(key: PartitionKey) -> Seq<u8> {
    match key {
        PartitionKey::TimeRange(b) => le_bytes(b as nat, 8),
        PartitionKey::Hash(b) => le_bytes(b as nat, 4),
        PartitionKey::ColumnRange(b) => le_bytes(b as nat, 2),
    }
}

/// The bytes that a key has under a strategy.
pub open spec fn key_width(strategy: PartitionStrategy) -> nat {
    match strategy {
        PartitionStrategy::TimeRange { .. } => 8,
        PartitionStrategy::Hash { .. } => 4,
        PartitionStrategy::ColumnRange { .. } => 2,
    }
}

/// The key that a number is under a strategy.
pub open spec fn key_of_value(value: nat, strategy: PartitionStrategy) -> PartitionKey {
    match strategy {
        PartitionStrategy::TimeRange { .. } => PartitionKey::TimeRange(value as u64),
        PartitionStrategy::Hash { .. } => PartitionKey::Hash(value as u32),
        PartitionStrategy::ColumnRange { .. } => PartitionKey::ColumnRange(value as u16),
    }
}

/// The message for a key of the wrong size.
pub open spec fn key_size_message(strategy: PartitionStrategy, got: nat) -> Seq<char> {
    (match strategy {
        PartitionStrategy::TimeRange { .. } => "TimeRange partition_key must be 8 bytes; got "@,
        PartitionStrategy::Hash { .. } => "Hash partition_key must be 4 bytes; got "@,
        PartitionStrategy::ColumnRange { .. } => "ColumnRange partition_key must be 2 bytes; got "@,
    }) + decimal(got)
}

/// The key that stored bytes stand for under a strategy.
pub open spec fn key_of_bytes(bytes: Seq<u8>, strategy: PartitionStrategy) -> Result<
    PartitionKey,
    CommitFault,
> {
    if bytes.len() == key_width(strategy) {
        Ok(key_of_value(le_value(bytes), strategy))
    } else {
        Err(CommitFault::PointerParse(key_size_message(strategy, bytes.len())))
    }
}

/// Is `key` of the kind that `strategy` assigns?
pub open spec fn key_matches(key: PartitionKey, strategy: PartitionStrategy) -> bool {
    match strategy {
        PartitionStrategy::TimeRange { .. } => key is TimeRange,
        PartitionStrategy::Hash { .. } => key is Hash,
        PartitionStrategy::ColumnRange { .. } => key is ColumnRange,
    }
}

/// The stored form of `key`.
pub fn encode_partition_key(key: &PartitionKey) -> (out: Vec<u8>)
    ensures
        out@ == key_bytes(*key),
{
    let mut out: Vec<u8> = Vec::new();
    match key {
        PartitionKey::TimeRange(b) => push_le(&mut out, *b, 8),
        PartitionKey::Hash(b) => push_le(&mut out, *b as u64, 4),
        PartitionKey::ColumnRange(b) => push_le(&mut out, *b as u64, 2),
    }
    assert(out@ =~= key_bytes(*key));
    out
}

/// Reads a stored key. Bytes of another size than the strategy's are an
/// error.
pub fn decode_partition_key(bytes: &[u8], strategy: &PartitionStrategy) -> (res: Result<
    PartitionKey,
    CommitError,
>)
    ensures
        res matches Ok(key) ==> key_of_bytes(bytes@, *strategy) == Ok::<PartitionKey, CommitFault>(
            key,
        ),
        res matches Err(e) ==> key_of_bytes(bytes@, *strategy) == Err::<PartitionKey, CommitFault>(
            e@,
        ),
{
    proof {
        lemma_byte_spans();
        assert(bytes@.subrange(0, bytes@.len() as int) =~= bytes@);
    }
    match strategy {
        PartitionStrategy::TimeRange { .. } => {
            if bytes.len() == 8 {
                return Ok(PartitionKey::TimeRange(read_le(bytes, 0, 8)));
            }
            let mut text = "TimeRange partition_key must be 8 bytes; got ".to_owned();
            push_decimal(&mut text, bytes.len() as u64);
            Err(CommitError::PointerParse(text))
        },
        PartitionStrategy::Hash { .. } => {
            if bytes.len() == 4 {
                return Ok(PartitionKey::Hash(read_le(bytes, 0, 4) as u32));
            }
            let mut text = "Hash partition_key must be 4 bytes; got ".to_owned();
            push_decimal(&mut text, bytes.len() as u64);
            Err(CommitError::PointerParse(text))
        },
        PartitionStrategy::ColumnRange { .. } => {
            if bytes.len() == 2 {
                return Ok(PartitionKey::ColumnRange(read_le(bytes, 0, 2) as u16));
            }
            let mut text = "ColumnRange partition_key must be 2 bytes; got ".to_owned();
            push_decimal(&mut text, bytes.len() as u64);
            Err(CommitError::PointerParse(text))
        },
    }
}

/// A key reads back from its stored form under every strategy of its kind.
pub proof fn lemma_key_reads_back(key: PartitionKey, strategy: PartitionStrategy)
    requires
        key_matches(key, strategy),
    ensures
        key_of_bytes(key_bytes(key), strategy) == Ok::<PartitionKey, CommitFault>(key),
{
    lemma_byte_spans();
    match key {
        PartitionKey::TimeRange(b) => lemma_le_reads_back(b as nat, 8),
        PartitionKey::Hash(b) => lemma_le_reads_back(b as nat, 4),
        PartitionKey::ColumnRange(b) => lemma_le_reads_back(b as nat, 2),
    }
}

// ---- Column bounds ----------------------------------------------------------

/// Type of a column.
#[derive(Debug, Clone, PartialEq, Eq)]
pub enum ScalarType {
    Int64,
    TimestampSecond,
    TimestampMillisecond,
    TimestampMicrosecond,
    TimestampNanosecond,
    /// Another type, by its name.
    Other(String),
}

/// The kinds of column types: those whose values are numbers, and all others.
#[derive(Debug, Clone, Copy, PartialEq, Eq, Structural)]
pub enum ScalarKind {
    Int64,
    TimestampSecond,
    TimestampMillisecond,
    TimestampMicrosecond,
    TimestampNanosecond,
    Other,
}

impl ScalarType {
    /// The kind of the type.
    pub open spec fn kind(self) -> ScalarKind {
        match self {
            ScalarType::Int64 => ScalarKind::Int64,
            ScalarType::TimestampSecond => ScalarKind::TimestampSecond,
            ScalarType::TimestampMillisecond => ScalarKind::TimestampMillisecond,
            ScalarType::TimestampMicrosecond => ScalarKind::TimestampMicrosecond,
            ScalarType::TimestampNanosecond => ScalarKind::TimestampNanosecond,
            ScalarType::Other(_) => ScalarKind::Other,
        }
    }
}

/// What stands in the one slot of a bound.
#[derive(Debug, Clone, Copy, PartialEq, Eq, Structural)]
pub enum ScalarSlot {
    /// Nothing: there is no slot, or it is null.
    Missing,
    /// A number.
    Value(i64),
    /// A value of a type that is not read as a number.
    Opaque,
}

/// One bound of a column.
#[derive(Debug, Clone, PartialEq, Eq)]
pub struct ScalarCell {
    pub data_type: ScalarType,
    pub slot: ScalarSlot,
}

/// Smallest and largest value of each column of a superfile.
#[derive(Debug, Clone, PartialEq, Eq)]
pub struct ScalarStatsTable {
    /// Bounds by column name; of two with the same name the later one counts.
    pub cols: Vec<(String, (ScalarCell, ScalarCell))>,
}

/// The position of the bounds of `column`.
pub open spec fn column_index(
    cols: Seq<(String, (ScalarCell, ScalarCell))>,
    column: Seq<char>,
) -> Option<int>
    decreases cols.len(),
{
    if cols.len() == 0 {
        None
    } else if cols.last().0@ == column {
        Some(cols.len() - 1)
    } else {
        column_index(cols.drop_last(), column)
    }
}

impl ScalarStatsTable {
    /// A table without columns.
    pub fn new() -> (table: Self)
        ensures
            table.cols@.len() == 0,
    {
        ScalarStatsTable { cols: Vec::new() }
    }

    /// Sets the bounds of a column.
    pub fn insert(&mut self, column: String, min: ScalarCell, max: ScalarCell)
        ensures
            final(self).cols@ == old(self).cols@.push((column, (min, max))),
    {
        self.cols.push((column, (min, max)));
    }

    /// The bounds of `column`, if it has any.
    pub fn get(&self, column: &str) -> (res: Option<&(ScalarCell, ScalarCell)>)
        ensures
            res is Some <==> column_index(self.cols@, column@) is Some,
            res matches Some(bounds) ==> *bounds == self.cols@[column_index(
                self.cols@,
                column@,
            )->0].1,
    {
        let mut i: usize = self.cols.len();
        assert(self.cols@.take(i as int) =~= self.cols@);
        while i > 0
            invariant
                i <= self.cols@.len(),
                column_index(self.cols@, column@) == column_index(
                    self.cols@.take(i as int),
                    column@,
                ),
            decreases i,
        {
            assert(self.cols@.take(i as int).drop_last() =~= self.cols@.take(i - 1));
            if same_text(&self.cols[i - 1].0, column) {
                return Some(&self.cols[i - 1].1);
            }
            i = i - 1;
        }
        None
    }
}

/// `TimeRange strategy: segment <uri> column <column>`, the start of the
/// messages about a bound.
pub open spec fn bound_context(uri: u128, column: Seq<char>) -> Seq<char> {
    "TimeRange strategy: segment "@ + uuid_chars(uri) + " column "@ + quoted_chars(column)
}

/// The number that a bound is, or why it is none.
pub open spec fn cell_value(cell: ScalarCell, column: Seq<char>, uri: u128) -> Result<
    i64,
    CommitFault,
> {
    if cell.slot is Missing {
        Err(
            CommitFault::SuperfileSpansPartition {
                detail: bound_context(uri, column) + " stats array is empty or null at index 0"@,
            },
        )
    } else {
        match cell.data_type {
            ScalarType::Other(name) => Err(
                CommitFault::SuperfileSpansPartition {
                    detail: bound_context(uri, column) + " has unsupported type "@ + name@
                        + "; expected Int64 or Timestamp*"@,
                },
            ),
            _ => match cell.slot {
                ScalarSlot::Value(v) => Ok(v),
                _ => Err(
                    CommitFault::SuperfileSpansPartition {
                        detail: bound_context(uri, column) + " downcast failed"@,
                    },
                ),
            },
        }
    }
}

/// The bounds of `column` as numbers, or why there are none.
pub open spec fn column_bounds(stats: ScalarStatsTable, column: Seq<char>, uri: u128) -> Result<
    (i64, i64),
    CommitFault,
> {
    match column_index(stats.cols@, column) {
        None => Err(
            CommitFault::SuperfileSpansPartition {
                detail: "TimeRange strategy: segment "@ + uuid_chars(uri)
                    + " has no scalar_stats for column "@ + quoted_chars(column),
            },
        ),
        Some(i) => match cell_value(stats.cols@[i].1.0, column, uri) {
            Err(fault) => Err(fault),
            Ok(min) => match cell_value(stats.cols@[i].1.1, column, uri) {
                Err(fault) => Err(fault),
                Ok(max) => Ok((min, max)),
            },
        },
    }
}

/// The start of the messages about a bound.
fn bound_message(uri: u128, column: &str) -> (text: String)
    ensures
        text@ == bound_context(uri, column@),
{
    let mut text = "TimeRange strategy: segment ".to_owned();
    text.append(&uuid_text(uri));
    text.append(" column ");
    text.append(&quoted(column));
    text
}

/// Reads a bound as a number. Only integers of 64 bits and timestamps are
/// read; the number has the unit of the column.
pub fn downcast_i64(cell: &ScalarCell, column: &str, seg: &SuperfileEntry) -> (res: Result<
    i64,
    CommitError,
>)
    ensures
        res matches Ok(v) ==> cell_value(*cell, column@, seg.uri.0) == Ok::<i64, CommitFault>(v),
        res matches Err(e) ==> cell_value(*cell, column@, seg.uri.0) == Err::<i64, CommitFault>(
            e@,
        ),
{
    if let ScalarSlot::Missing = cell.slot {
        let mut detail = bound_message(seg.uri.0, column);
        detail.append(" stats array is empty or null at index 0");
        return Err(CommitError::SuperfileSpansPartition { detail });
    }
    if let ScalarType::Other(name) = &cell.data_type {
        let mut detail = bound_message(seg.uri.0, column);
        detail.append(" has unsupported type ");
        detail.append(name);
        detail.append("; expected Int64 or Timestamp*");
        return Err(CommitError::SuperfileSpansPartition { detail });
    }
    match cell.slot {
        ScalarSlot::Value(v) => Ok(v),
        _ => {
            let mut detail = bound_message(seg.uri.0, column);
            detail.append(" downcast failed");
            Err(CommitError::SuperfileSpansPartition { detail })
        },
    }
}

/// The bounds of `column` as numbers.
pub fn scalar_i64_minmax(seg: &SuperfileEntry, stats: &ScalarStatsTable, column: &str) -> (res:
    Result<(i64, i64), CommitError>)
    ensures
        res matches Ok(bounds) ==> column_bounds(*stats, column@, seg.uri.0) == Ok::<
            (i64, i64),
            CommitFault,
        >(bounds),
        res matches Err(e) ==> column_bounds(*stats, column@, seg.uri.0) == Err::<
            (i64, i64),
            CommitFault,
        >(e@),
{
    match stats.get(column) {
        None => {
            let mut detail = "TimeRange strategy: segment ".to_owned();
            detail.append(&uuid_text(seg.uri.0));
            detail.append(" has no scalar_stats for column ");
            detail.append(&quoted(column));
            Err(CommitError::SuperfileSpansPartition { detail })
        },
        Some(bounds) => {
            let min = downcast_i64(&bounds.0, column, seg)?;
            let max = downcast_i64(&bounds.1, column, seg)?;
            Ok((min, max))
        },
    }
}

// ---- Assignment -------------------------------------------------------------

/// A bucket as an unsigned number: negative buckets wrap around.
pub open spec fn bucket_number(bucket: int) -> u64 {
    if bucket < 0 {
        (bucket + 0x1_0000_0000_0000_0000) as u64
    } else {
        bucket as u64
    }
}

/// The message about a superfile whose times lie in two buckets.
pub open spec fn spans_message(uri: u128, column: Seq<char>, min: int, max: int, g: int) -> Seq<
    char,
> {
    "segment "@ + uuid_chars(uri) + " column "@ + quoted_chars(column) + " ["@ + signed_decimal(min)
        + ", "@ + signed_decimal(max) + "] spans buckets "@ + signed_decimal(min / g) + "..="@
        + signed_decimal(max / g)
        + "; reduce commit_threshold_size_mb or flush at granularity boundaries"@
}

/// The partition of a superfile in time buckets: both bounds of the column
/// must lie in one bucket.
pub open spec fn time_partition(
    uri: u128,
    stats: ScalarStatsTable,
    column: Seq<char>,
    g: i64,
) -> Result<PartitionKey, CommitFault> {
    if g <= 0 {
        Err(
            CommitFault::SuperfileSpansPartition {
                detail: "TimeRange granularity_secs must be > 0; got "@ + signed_decimal(g as int),
            },
        )
    } else {
        match column_bounds(stats, column, uri) {
            Err(fault) => Err(fault),
            Ok((min, max)) => if min as int / g as int != max as int / g as int {
                Err(
                    CommitFault::SuperfileSpansPartition {
                        detail: spans_message(uri, column, min as int, max as int, g as int),
                    },
                )
            } else {
                Ok(PartitionKey::TimeRange(bucket_number(min as int / g as int)))
            },
        }
    }
}

/// The partition of a superfile in hash buckets. A single bucket needs no
/// hint; several need the bucket that the writer sharded the rows into.
pub open spec fn hash_partition(uri: u128, hint: Option<u32>, n_buckets: u32) -> Result<
    PartitionKey,
    CommitFault,
> {
    if n_buckets <= 1 {
        Ok(PartitionKey::Hash(0))
    } else {
        match hint {
            None => Err(
                CommitFault::SuperfileSpansPartition {
                    detail: "Hash{n_buckets:"@ + decimal(n_buckets as nat)
                        + "} strategy requires pre-sharded superfiles; SuperfileEntry.partition_hint must be Some(bucket) (segment "@
                        + uuid_chars(uri) + ")"@,
                },
            ),
            Some(bucket) => if bucket >= n_buckets {
                Err(
                    CommitFault::SuperfileSpansPartition {
                        detail: "Hash{n_buckets:"@ + decimal(n_buckets as nat)
                            + "} got partition_hint="@ + decimal(bucket as nat)
                            + " (out of range)"@,
                    },
                )
            } else {
                Ok(PartitionKey::Hash(bucket))
            },
        }
    }
}

/// The partition of a superfile under a strategy.
pub open spec fn partition_of(
    uri: u128,
    hint: Option<u32>,
    stats: ScalarStatsTable,
    strategy: PartitionStrategy,
) -> Result<PartitionKey, CommitFault> {
    match strategy {
        PartitionStrategy::TimeRange { column, granularity_secs } => time_partition(
            uri,
            stats,
            column@,
            granularity_secs,
        ),
        PartitionStrategy::Hash { column: _, n_buckets } => hash_partition(uri, hint, n_buckets),
        PartitionStrategy::ColumnRange { .. } => Err(
            CommitFault::SuperfileSpansPartition {
                detail: "ColumnRange partition assignment lands in a follow-up; no writer currently emits ColumnRange-partitioned commits"@,
            },
        ),
    }
}

/// A bucket as an unsigned number.
fn wrap_bucket(bucket: i64) -> (number: u64)
    ensures
        number == bucket_number(bucket as int),
        number as int == bucket as int % 0x1_0000_0000_0000_0000,
{
    if bucket >= 0 {
        bucket as u64
    } else {
        u64::MAX - (-(bucket + 1)) as u64
    }
}

/// Decides the partition of `seg`, whose column bounds are `stats`.
pub fn assign_partition(
    seg: &SuperfileEntry,
    stats: &ScalarStatsTable,
    strategy: &PartitionStrategy,
) -> (res: Result<PartitionKey, CommitError>)
    ensures
        res matches Ok(key) ==> partition_of(seg.uri.0, seg.partition_hint, *stats, *strategy)
            == Ok::<PartitionKey, CommitFault>(key),
        res matches Err(e) ==> partition_of(seg.uri.0, seg.partition_hint, *stats, *strategy)
            == Err::<PartitionKey, CommitFault>(e@),
{
    match strategy {
        PartitionStrategy::TimeRange { column, granularity_secs } => {
            let g = *granularity_secs;
            if g <= 0 {
                let mut detail = "TimeRange granularity_secs must be > 0; got ".to_owned();
                push_signed_decimal(&mut detail, g);
                return Err(CommitError::SuperfileSpansPartition { detail });
            }
            let (min, max) = scalar_i64_minmax(seg, stats, column)?;
            let min_bucket = bucket_of(min, g);
            let max_bucket = bucket_of(max, g);
            if min_bucket != max_bucket {
                let mut detail = "segment ".to_owned();
                detail.append(&uuid_text(seg.uri.0));
                detail.append(" column ");
                detail.append(&quoted(column));
                detail.append(" [");
                push_signed_decimal(&mut detail, min);
                detail.append(", ");
                push_signed_decimal(&mut detail, max);
                detail.append("] spans buckets ");
                push_signed_decimal(&mut detail, min_bucket);
                detail.append("..=");
                push_signed_decimal(&mut detail, max_bucket);
                detail.append(
                    "; reduce commit_threshold_size_mb or flush at granularity boundaries",
                );
                return Err(CommitError::SuperfileSpansPartition { detail });
            }
            Ok(PartitionKey::TimeRange(wrap_bucket(min_bucket)))
        },
        PartitionStrategy::Hash { column: _, n_buckets } => {
            if *n_buckets <= 1 {
                return Ok(PartitionKey::Hash(0));
            }
            let mut detail = "Hash{n_buckets:".to_owned();
            push_decimal(&mut detail, *n_buckets as u64);
            match seg.partition_hint {
                None => {
                    detail.append(
                        "} strategy requires pre-sharded superfiles; SuperfileEntry.partition_hint must be Some(bucket) (segment ",
                    );
                    detail.append(&uuid_text(seg.uri.0));
                    detail.append(")");
                    Err(CommitError::SuperfileSpansPartition { detail })
                },
                Some(bucket) => {
                    if bucket >= *n_buckets {
                        detail.append("} got partition_hint=");
                        push_decimal(&mut detail, bucket as u64);
                        detail.append(" (out of range)");
                        return Err(CommitError::SuperfileSpansPartition { detail });
                    }
                    Ok(PartitionKey::Hash(bucket))
                },
            }
        },
        PartitionStrategy::ColumnRange { .. } => Err(
            CommitError::SuperfileSpansPartition {
                detail: "ColumnRange partition assignment lands in a follow-up; no writer currently emits ColumnRange-partitioned commits".to_owned(),
            },
        ),
    }
}

/// The bucket of `value` in buckets of length `g`, rounded down.
fn bucket_of(value: i64, g: i64) -> (bucket: i64)
    requires
        g > 0,
    ensures
        bucket == value as int / g as int,
{
    proof {
        let v = value as int;
        let d = g as int;
        assert((v >= 0 ==> 0 <= v / d <= v) && (v < 0 ==> v <= v / d <= 0)) by (nonlinear_arith)
            requires
                d > 0,
        ;
    }
    match value.checked_div_euclid(g) {
        Some(bucket) => bucket,
        None => 0,
    }
}

/// An assigned key is of the strategy's kind, so its stored form reads back.
pub proof fn lemma_assigned_key_reads_back(
    uri: u128,
    hint: Option<u32>,
    stats: ScalarStatsTable,
    strategy: PartitionStrategy,
)
    ensures
        partition_of(uri, hint, stats, strategy) matches Ok(key) ==> key_of_bytes(
            key_bytes(key),
            strategy,
        ) == Ok::<PartitionKey, CommitFault>(key),
{
    if let Ok(key) = partition_of(uri, hint, stats, strategy) {
        lemma_key_reads_back(key, strategy);
    }
}

/// A time partition holds every value between the bounds of its superfile,
/// not only the two bounds.
pub proof fn lemma_time_partition_holds_every_value(
    uri: u128,
    stats: ScalarStatsTable,
    column: Seq<char>,
    g: i64,
    value: i64,
)
    ensures
        time_partition(uri, stats, column, g) matches Ok(key) ==> (column_bounds(
            stats,
            column,
            uri,
        ) matches Ok((min, max)) && (min <= value <= max ==> key == PartitionKey::TimeRange(
            bucket_number(value as int / g as int),
        ))),
{
    if let Ok((min, max)) = column_bounds(stats, column, uri) {
        if g > 0 && min <= value <= max {
            vstd::arithmetic::div_mod::lemma_div_is_ordered(min as int, value as int, g as int);
            vstd::arithmetic::div_mod::lemma_div_is_ordered(value as int, max as int, g as int);
        }
    }
}

/// A hash partition is one of the buckets; without buckets there is one.
pub proof fn lemma_hash_partition_in_range(uri: u128, hint: Option<u32>, n_buckets: u32)
    ensures
        hash_partition(uri, hint, n_buckets) matches Ok(key) ==> (key matches PartitionKey::Hash(b)
            && (b < n_buckets || b == 0)),
{
}

/// The bounds of a column are the last ones that were set for it.
proof fn lemma_column_index(
    cols: Seq<(String, (ScalarCell, ScalarCell))>,
    column: Seq<char>,
    i: int,
)
    requires
        0 <= i < cols.len(),
        cols[i].0@ == column,
        forall|j: int| i < j < cols.len() ==> (#[trigger] cols[j]).0@ != column,
    ensures
        column_index(cols, column) == Some(i),
    decreases cols.len(),
{
    if i < cols.len() - 1 {
        let rest = cols.drop_last();
        assert(rest[i] == cols[i]);
        assert forall|j: int| i < j < rest.len() implies (#[trigger] rest[j]).0@ != column by {
            assert(rest[j] == cols[j]);
        }
        assert(cols[cols.len() - 1].0@ != column);
        lemma_column_index(rest, column, i);
    }
}

proof fn lemma_no_column_index(cols: Seq<(String, (ScalarCell, ScalarCell))>, column: Seq<char>)
    requires
        forall|j: int| 0 <= j < cols.len() ==> (#[trigger] cols[j]).0@ != column,
    ensures
        column_index(cols, column) is None,
    decreases cols.len(),
{
    if cols.len() > 0 {
        let rest = cols.drop_last();
        assert forall|j: int| 0 <= j < rest.len() implies (#[trigger] rest[j]).0@ != column by {
            assert(rest[j] == cols[j]);
        }
        assert(cols[cols.len() - 1].0@ != column);
        lemma_no_column_index(rest, column);
    }
}

/// A column is looked up by its name, and the bounds that were set last count.
pub proof fn lemma_get_finds_the_last(
    stats: ScalarStatsTable,
    column: &str,
    found: Option<&(ScalarCell, ScalarCell)>,
)
    requires
        call_ensures(ScalarStatsTable::get, (&stats, column), found),
    ensures
        found is None <==> forall|j: int|
            0 <= j < stats.cols@.len() ==> (#[trigger] stats.cols@[j]).0@ != column@,
        forall|i: int|
            0 <= i < stats.cols@.len() && (#[trigger] stats.cols@[i]).0@ == column@ && (forall|
                j: int,
            | i < j < stats.cols@.len() ==> (#[trigger] stats.cols@[j]).0@ != column@) ==> found
                is Some && *found->0 == stats.cols@[i].1,
{
    assert forall|i: int|
        0 <= i < stats.cols@.len() && (#[trigger] stats.cols@[i]).0@ == column@ && (forall|j: int|
            i < j < stats.cols@.len() ==> (#[trigger] stats.cols@[j]).0@ != column@) implies found
        is Some && *found->0 == stats.cols@[i].1 by {
        lemma_column_index(stats.cols@, column@, i);
    }
    if forall|j: int| 0 <= j < stats.cols@.len() ==> (#[trigger] stats.cols@[j]).0@ != column@ {
        lemma_no_column_index(stats.cols@, column@);
    } else {
        let i = lemma_last_named(stats.cols@, column@);
        lemma_column_index(stats.cols@, column@, i);
    }
}

/// The last place of a name that occurs.
proof fn lemma_last_named(cols: Seq<(String, (ScalarCell, ScalarCell))>, column: Seq<char>) -> (i:
    int)
    requires
        exists|j: int| 0 <= j < cols.len() && (#[trigger] cols[j]).0@ == column,
    ensures
        0 <= i < cols.len(),
        cols[i].0@ == column,
        forall|j: int| i < j < cols.len() ==> (#[trigger] cols[j]).0@ != column,
    decreases cols.len(),
{
    let last = cols.len() - 1;
    if cols[last].0@ == column {
        last
    } else {
        let rest = cols.drop_last();
        let k = choose|j: int| 0 <= j < cols.len() && (#[trigger] cols[j]).0@ == column;
        assert(rest[k] == cols[k]);
        let i = lemma_last_named(rest, column);
        assert forall|j: int| i < j < cols.len() implies (#[trigger] cols[j]).0@ != column by {
            if j < last {
                assert(rest[j] == cols[j]);
            }
        }
        assert(rest[i] == cols[i]);
        i
    }
}

/// In time buckets of length `g` a superfile, whose column has the bounds `min`
/// and `max`, has a partition exactly if both lie in one bucket. The key is
/// the number of the bucket modulo 2 to the 64th: the bucket itself, if the
/// time is not negative.
pub proof fn lemma_time_key_is_the_bucket(
    seg: SuperfileEntry,
    stats: ScalarStatsTable,
    strategy: PartitionStrategy,
    i: int,
    res: Result<PartitionKey, CommitError>,
)
    requires
        call_ensures(assign_partition, (&seg, &stats, &strategy), res),
        strategy is TimeRange,
        strategy->TimeRange_granularity_secs > 0,
        0 <= i < stats.cols@.len(),
        stats.cols@[i].0@ == strategy->TimeRange_column@,
        forall|j: int|
            i < j < stats.cols@.len() ==> (#[trigger] stats.cols@[j]).0@
                != strategy->TimeRange_column@,
        !(stats.cols@[i].1.0.data_type is Other),
        !(stats.cols@[i].1.1.data_type is Other),
        stats.cols@[i].1.0.slot is Value,
        stats.cols@[i].1.1.slot is Value,
    ensures
        ({
            let g = strategy->TimeRange_granularity_secs as int;
            let min = stats.cols@[i].1.0.slot->Value_0 as int;
            let max = stats.cols@[i].1.1.slot->Value_0 as int;
            &&& res is Ok <==> min / g == max / g
            &&& res is Ok ==> res->Ok_0 is TimeRange && res->Ok_0->TimeRange_0 as int == (min / g)
                % 0x1_0000_0000_0000_0000
            &&& res is Ok && min >= 0 ==> res->Ok_0->TimeRange_0 as int == min / g
            &&& res is Err ==> res->Err_0 is SuperfileSpansPartition
        }),
{
    let g = strategy->TimeRange_granularity_secs as int;
    let min = stats.cols@[i].1.0.slot->Value_0 as int;
    lemma_column_index(stats.cols@, strategy->TimeRange_column@, i);
    assert((min >= 0 ==> 0 <= min / g <= min) && (min < 0 ==> min <= min / g <= 0)) by (nonlinear_arith)
        requires
            g > 0,
    ;
}

/// Without a positive granularity, without the column's bounds, or with a
/// bound that is missing or no number, a superfile has no time partition.
pub proof fn lemma_no_time_key_without_bounds(
    seg: SuperfileEntry,
    stats: ScalarStatsTable,
    strategy: PartitionStrategy,
    res: Result<PartitionKey, CommitError>,
)
    requires
        call_ensures(assign_partition, (&seg, &stats, &strategy), res),
        strategy is TimeRange,
    ensures
        strategy->TimeRange_granularity_secs <= 0 ==> res is Err,
        (forall|j: int|
            0 <= j < stats.cols@.len() ==> (#[trigger] stats.cols@[j]).0@
                != strategy->TimeRange_column@) ==> res is Err,
        forall|i: int|
            0 <= i < stats.cols@.len() && (#[trigger] stats.cols@[i]).0@
                == strategy->TimeRange_column@ && (forall|j: int|
                i < j < stats.cols@.len() ==> (#[trigger] stats.cols@[j]).0@
                    != strategy->TimeRange_column@) && res is Ok ==> stats.cols@[i].1.0.slot
                is Value && stats.cols@[i].1.1.slot is Value && !(stats.cols@[i].1.0.data_type
                is Other) && !(stats.cols@[i].1.1.data_type is Other),
{
    if forall|j: int|
        0 <= j < stats.cols@.len() ==> (#[trigger] stats.cols@[j]).0@
            != strategy->TimeRange_column@ {
        lemma_no_column_index(stats.cols@, strategy->TimeRange_column@);
    }
    assert forall|i: int|
        0 <= i < stats.cols@.len() && (#[trigger] stats.cols@[i]).0@ == strategy->TimeRange_column@
            && (forall|j: int|
            i < j < stats.cols@.len() ==> (#[trigger] stats.cols@[j]).0@
                != strategy->TimeRange_column@) && res is Ok implies stats.cols@[i].1.0.slot
        is Value && stats.cols@[i].1.1.slot is Value && !(stats.cols@[i].1.0.data_type is Other)
        && !(stats.cols@[i].1.1.data_type is Other) by {
        lemma_column_index(stats.cols@, strategy->TimeRange_column@, i);
    }
}

/// Two buckets of 64-bit times have the same number modulo 2 to the 64th only
/// if they are the same, so different buckets are different partitions.
pub proof fn lemma_time_keys_differ(a: i64, b: i64, g: i64)
    requires
        g > 0,
    ensures
        PartitionKey::TimeRange(bucket_number(a as int / g as int)) == PartitionKey::TimeRange(
            bucket_number(b as int / g as int),
        ) <==> a as int / g as int == b as int / g as int,
        bucket_number(a as int / g as int) as int == (a as int / g as int)
            % 0x1_0000_0000_0000_0000,
{
    let (x, y, d) = (a as int, b as int, g as int);
    assert((x >= 0 ==> 0 <= x / d <= x) && (x < 0 ==> x <= x / d <= 0)) by (nonlinear_arith)
        requires
            d > 0,
    ;
    assert((y >= 0 ==> 0 <= y / d <= y) && (y < 0 ==> y <= y / d <= 0)) by (nonlinear_arith)
        requires
            d > 0,
    ;
}

/// In hash buckets a superfile has the bucket that its writer chose, which must
/// be one of them; where there is at most one bucket, every superfile is in
/// the first. Ranges of a column are assigned to no superfile.
pub proof fn lemma_hash_key_is_the_hint(
    seg: SuperfileEntry,
    stats: ScalarStatsTable,
    strategy: PartitionStrategy,
    res: Result<PartitionKey, CommitError>,
)
    requires
        call_ensures(assign_partition, (&seg, &stats, &strategy), res),
    ensures
        strategy matches PartitionStrategy::Hash { column: _, n_buckets } ==> {
            &&& n_buckets <= 1 ==> res == Ok::<PartitionKey, CommitError>(PartitionKey::Hash(0))
            &&& n_buckets > 1 ==> (res is Ok <==> seg.partition_hint is Some
                && seg.partition_hint->0 < n_buckets)
            &&& n_buckets > 1 && res is Ok ==> res->Ok_0 == PartitionKey::Hash(
                seg.partition_hint->0,
            )
        },
        strategy is ColumnRange ==> res is Err,
{
}

/// A stored key is as wide as its kind asks, its least significant byte first;
/// keys of one kind with the same stored form are the same.
pub proof fn lemma_stored_keys(key: PartitionKey, out: Vec<u8>)
    requires
        call_ensures(encode_partition_key, (&key,), out),
    ensures
        key matches PartitionKey::TimeRange(b) ==> out@.len() == 8 && le_value(out@) == b,
        key matches PartitionKey::Hash(b) ==> out@.len() == 4 && le_value(out@) == b,
        key matches PartitionKey::ColumnRange(b) ==> out@.len() == 2 && le_value(out@) == b,
{
    lemma_byte_spans();
    match key {
        PartitionKey::TimeRange(b) => lemma_le_reads_back(b as nat, 8),
        PartitionKey::Hash(b) => lemma_le_reads_back(b as nat, 4),
        PartitionKey::ColumnRange(b) => lemma_le_reads_back(b as nat, 2),
    }
}

/// Stored bytes are read as a key of the strategy's kind exactly if they are as
/// many as that kind has.
pub proof fn lemma_stored_key_is_read(
    bytes: &[u8],
    strategy: PartitionStrategy,
    res: Result<PartitionKey, CommitError>,
)
    requires
        call_ensures(decode_partition_key, (bytes, &strategy), res),
    ensures
        strategy is TimeRange ==> (res is Ok <==> bytes@.len() == 8) && (res matches Ok(key) ==> key
            is TimeRange && key->TimeRange_0 == le_value(bytes@)),
        strategy is Hash ==> (res is Ok <==> bytes@.len() == 4) && (res matches Ok(key) ==> key
            is Hash && key->Hash_0 == le_value(bytes@)),
        strategy is ColumnRange ==> (res is Ok <==> bytes@.len() == 2) && (res matches Ok(key)
            ==> key is ColumnRange && key->ColumnRange_0 == le_value(bytes@)),
        res matches Err(e) ==> e is PointerParse,
{
    lemma_byte_spans();
    crate::numbers::lemma_le_bound(bytes@);
}

/// A bound is a number exactly if its slot holds one and its type is read as a
/// number, and is that number.
pub proof fn lemma_bound_is_its_slot(
    cell: ScalarCell,
    column: &str,
    seg: SuperfileEntry,
    res: Result<i64, CommitError>,
)
    requires
        call_ensures(downcast_i64, (&cell, column, &seg), res),
    ensures
        res is Ok <==> cell.slot is Value && !(cell.data_type is Other),
        res matches Ok(v) ==> cell.slot == ScalarSlot::Value(v),
        res matches Err(e) ==> e is SuperfileSpansPartition,
{
}

/// Bounds that are set for a column are those that it has from then on; the
/// bounds of other columns stay.
pub proof fn lemma_set_bounds_are_found(
    stats: &mut ScalarStatsTable,
    column: String,
    min: ScalarCell,
    max: ScalarCell,
    after: ScalarStatsTable,
    other: &str,
    found: Option<&(ScalarCell, ScalarCell)>,
    before: ScalarStatsTable,
    was: Option<&(ScalarCell, ScalarCell)>,
)
    requires
        call_ensures(ScalarStatsTable::insert, (stats, column, min, max), ()),
        before == *old(stats),
        after == *final(stats),
        call_ensures(ScalarStatsTable::get, (&after, other), found),
        call_ensures(ScalarStatsTable::get, (&before, other), was),
    ensures
        other@ == column@ ==> found is Some && *found->0 == (min, max),
        other@ != column@ ==> (found is Some <==> was is Some) && (found is Some ==> *found->0
            == *was->0),
{
    let cols = after.cols@;
    assert(cols.drop_last() =~= before.cols@);
    if other@ == column@ {
        lemma_column_index(cols, other@, cols.len() - 1);
    } else if exists|j: int| 0 <= j < before.cols@.len() && (#[trigger] before.cols@[j]).0@
        == other@ {
        let i = lemma_last_named(before.cols@, other@);
        lemma_column_index(before.cols@, other@, i);
        assert(cols.last().0@ != other@);
        assert(column_index(cols, other@) == Some(i));
        assert(cols[i] == before.cols@[i]);
    } else {
        lemma_no_column_index(before.cols@, other@);
        assert(cols.last().0@ != other@);
    }
}

} // verus!
