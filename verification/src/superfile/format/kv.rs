//! Parquet metadata keys, all prefixed `inf.` to match the project magic.

use vstd::prelude::*;

verus! {

/// Marks a Parquet file as a superfile; its value is [`FORMAT_VALUE`].
pub const FORMAT: &'static str = "inf.format";

/// Version of the format, such as `1.0.0`.
pub const FORMAT_VERSION: &'static str = "inf.format_version";

/// Name of the schema column in the `id` role.
pub const ID_COLUMN: &'static str = "inf.id_column";

/// Number of documents in the segment, in decimal.
pub const N_DOCS: &'static str = "inf.n_docs";

/// Writer library, version and commit.
pub const BUILDER: &'static str = "inf.builder";

/// Byte offset of the full-text blob.
pub const FTS_OFFSET: &'static str = "inf.fts.offset";

/// Byte length of the full-text blob.
pub const FTS_LENGTH: &'static str = "inf.fts.length";

/// Per-column full-text configuration.
pub const FTS_COLUMNS: &'static str = "inf.fts.columns";

/// Byte offset of the vector blob.
pub const VEC_OFFSET: &'static str = "inf.vec.offset";

/// Byte length of the vector blob.
pub const VEC_LENGTH: &'static str = "inf.vec.length";

/// Per-column vector configuration.
pub const VEC_COLUMNS: &'static str = "inf.vec.columns";

/// Value of the [`FORMAT`] key.
pub const FORMAT_VALUE: &'static str = "infino-superfile";

/// The keys that every superfile has.
pub const REQUIRED: [&'static str; 5] = [FORMAT, FORMAT_VERSION, ID_COLUMN, N_DOCS, BUILDER];

/// The full-text keys: all of them are present, or none.
pub const FTS_KEYS: [&'static str; 3] = [FTS_OFFSET, FTS_LENGTH, FTS_COLUMNS];

/// The vector keys: all of them are present, or none.
pub const VEC_KEYS: [&'static str; 3] = [VEC_OFFSET, VEC_LENGTH, VEC_COLUMNS];

/// Every key.
pub const ALL: [&'static str; 11] = [
    FORMAT,
    FORMAT_VERSION,
    ID_COLUMN,
    N_DOCS,
    BUILDER,
    FTS_OFFSET,
    FTS_LENGTH,
    FTS_COLUMNS,
    VEC_OFFSET,
    VEC_LENGTH,
    VEC_COLUMNS,
];

} // verus!
