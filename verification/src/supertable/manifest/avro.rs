//! Avro values as plain data, and the datum codec behind them.

use apache_avro::types::Value;
use vstd::prelude::*;

verus! {

/// An Avro value of one of the types that a manifest part is made of.
#[derive(Debug)]
pub enum AvroValue {
    Null,
    Boolean(bool),
    Int(i32),
    Long(i64),
    Binary(Vec<u8>),
    Text(String),
    Fixed(usize, Vec<u8>),
    Union(u32, Box<AvroValue>),
    Array(Vec<AvroValue>),
    Record(Vec<(String, AvroValue)>),
    /// A value of a type that no manifest part holds.
    Other,
}

/// [`AvroValue`] over sequences.
pub enum AvroNode {
    Null,
    Boolean(bool),
    Int(i32),
    Long(i64),
    Binary(Seq<u8>),
    Text(Seq<char>),
    Fixed(usize, Seq<u8>),
    Union(u32, Box<AvroNode>),
    Array(Seq<AvroNode>),
    Record(Seq<(Seq<char>, AvroNode)>),
    Other,
}

impl AvroValue {
    pub open spec fn node(self) -> AvroNode
        decreases self,
    {
        match self {
            AvroValue::Null => AvroNode::Null,
            AvroValue::Boolean(b) => AvroNode::Boolean(b),
            AvroValue::Int(v) => AvroNode::Int(v),
            AvroValue::Long(v) => AvroNode::Long(v),
            AvroValue::Binary(b) => AvroNode::Binary(b@),
            AvroValue::Text(s) => AvroNode::Text(s@),
            AvroValue::Fixed(n, b) => AvroNode::Fixed(n, b@),
            AvroValue::Union(arm, inner) => AvroNode::Union(arm, Box::new(inner.node())),
            AvroValue::Array(items) => AvroNode::Array(
                Seq::new(
                    items@.len(),
                    |i: int|
                        if 0 <= i < items@.len() {
                            items@[i].node()
                        } else {
                            AvroNode::Other
                        },
                ),
            ),
            AvroValue::Record(fields) => AvroNode::Record(
                Seq::new(
                    fields@.len(),
                    |i: int|
                        if 0 <= i < fields@.len() {
                            (fields@[i].0@, fields@[i].1.node())
                        } else {
                            (Seq::empty(), AvroNode::Other)
                        },
                ),
            ),
            AvroValue::Other => AvroNode::Other,
        }
    }
}

/// `apache_avro::types::Value`, carried as it is.
#[verifier::external_type_specification]
#[verifier::external_body]
pub struct ExValue(Value);

/// What a value of `apache_avro` holds: [`AvroNode`] has a counterpart of each
/// variant that a manifest part is made of, and `Other` for the rest.
pub uninterp spec fn value_node(value: Value) -> AvroNode;

/// The value that `apache_avro` holds `value` as: each variant becomes its
/// counterpart, and its fields move over.
#[verifier::external_body]
fn to_outside(value: AvroValue) -> (res: Value)
    requires
        is_part_node(value.node()),
    ensures
        value_node(res) == value.node(),
{
    match value {
        AvroValue::Boolean(b) => Value::Boolean(b),
        AvroValue::Int(v) => Value::Int(v),
        AvroValue::Long(v) => Value::Long(v),
        AvroValue::Binary(b) => Value::Bytes(b),
        AvroValue::Text(s) => Value::String(s),
        AvroValue::Fixed(n, b) => Value::Fixed(n, b),
        AvroValue::Union(i, v) => Value::Union(i, Box::new(to_outside(*v))),
        AvroValue::Array(a) => Value::Array(a.into_iter().map(to_outside).collect()),
        AvroValue::Record(r) => {
            Value::Record(r.into_iter().map(|(k, v)| (k, to_outside(v))).collect())
        },
        _ => Value::Null,
    }
}

/// The value that `value` of `apache_avro` stands for: each variant becomes
/// its counterpart, and its fields move over; a variant that
/// [`AvroValue`] lacks becomes `Other`.
#[verifier::external_body]
fn from_outside(value: Value) -> (res: AvroValue)
    ensures
        res.node() == value_node(value),
{
    match value {
        Value::Null => AvroValue::Null,
        Value::Boolean(b) => AvroValue::Boolean(b),
        Value::Int(v) => AvroValue::Int(v),
        Value::Long(v) => AvroValue::Long(v),
        Value::Bytes(b) => AvroValue::Binary(b),
        Value::String(s) => AvroValue::Text(s),
        Value::Fixed(n, b) => AvroValue::Fixed(n, b),
        Value::Union(i, v) => AvroValue::Union(i, Box::new(from_outside(*v))),
        Value::Array(a) => AvroValue::Array(a.into_iter().map(from_outside).collect()),
        Value::Record(r) =>
            AvroValue::Record(r.into_iter().map(|(k, v)| (k, from_outside(v))).collect()),
        _ => AvroValue::Other
    }
}

// ---- The datum of a manifest part -------------------------------------------

/// The Avro schema of a manifest part.
pub const PART_SCHEMA: &'static str = r#"{"type": "record", "name": "ManifestPart", "fields": [
  {"name": "format_version", "type": "string"},
  {"name": "part_id", "type": "string"},
  {"name": "superfiles", "type": {"type": "array", "items": {
    "type": "record", "name": "SuperfileEntry", "fields": [
      {"name": "superfile_id", "type": "string"},
      {"name": "uri", "type": "string"},
      {"name": "n_docs", "type": "long"},
      {"name": "id_min", "type": {"type": "fixed", "name": "IdMin", "size": 16}},
      {"name": "id_max", "type": {"type": "fixed", "name": "IdMax", "size": 16}},
      {"name": "partition_key", "type": "bytes"},
      {"name": "partition_hint", "type": ["null", "int"], "default": null},
      {"name": "scalar_stats", "type": "bytes"},
      {"name": "fts_summary", "type": "bytes"},
      {"name": "vector_summary", "type": "bytes"},
      {"name": "subsection_offsets", "type": ["null", "bytes"], "default": null}
    ]}}}
]}"#;

/// Union arm of the `null` branch of an optional field.
pub const AVRO_UNION_NULL_INDEX: u32 = 0;

/// Union arm of the value branch of an optional field.
pub const AVRO_UNION_VALUE_INDEX: u32 = 1;

/// Width of an identifier column.
pub const ID_COLUMN_FIXED_BYTES: usize = 16;

/// The largest text or byte string that the datum reader takes, in bytes.
pub const DATUM_BYTES_MAX: usize = 0x2000_0000;

/// As many rows as the datum reader takes in any case.
pub const DATUM_ROWS_MAX: usize = 0x40_0000;

/// Is `field` named `name`, and holds a text?
pub open spec fn is_text_field(field: (Seq<char>, AvroNode), name: Seq<char>) -> bool {
    field.0 == name && field.1 is Text
}

/// Is `field` named `name`, and holds bytes?
pub open spec fn is_bytes_field(field: (Seq<char>, AvroNode), name: Seq<char>) -> bool {
    field.0 == name && field.1 is Binary
}

/// Is `field` named `name`, and holds an identifier?
pub open spec fn is_id_field(field: (Seq<char>, AvroNode), name: Seq<char>) -> bool {
    &&& field.0 == name
    &&& field.1 matches AvroNode::Fixed(n, b) && n == ID_COLUMN_FIXED_BYTES && b.len()
        == ID_COLUMN_FIXED_BYTES
}

/// Is `node` a superfile record of the schema, field by field?
pub open spec fn is_superfile_node(node: AvroNode) -> bool {
    &&& node matches AvroNode::Record(f)
    &&& f.len() == 11
    &&& is_text_field(f[0], "superfile_id"@)
    &&& is_text_field(f[1], "uri"@)
    &&& f[2].0 == "n_docs"@ && f[2].1 is Long
    &&& is_id_field(f[3], "id_min"@)
    &&& is_id_field(f[4], "id_max"@)
    &&& is_bytes_field(f[5], "partition_key"@)
    &&& f[6].0 == "partition_hint"@ && (f[6].1 matches AvroNode::Union(arm, inner) && (if arm
        == AVRO_UNION_NULL_INDEX {
        *inner is Null
    } else {
        arm == AVRO_UNION_VALUE_INDEX && *inner is Int
    }))
    &&& is_bytes_field(f[7], "scalar_stats"@)
    &&& is_bytes_field(f[8], "fts_summary"@)
    &&& is_bytes_field(f[9], "vector_summary"@)
    &&& f[10].0 == "subsection_offsets"@ && (f[10].1 matches AvroNode::Union(arm, inner) && (if arm
        == AVRO_UNION_NULL_INDEX {
        *inner is Null
    } else {
        arm == AVRO_UNION_VALUE_INDEX && *inner is Binary
    }))
}

/// Is `node` a manifest-part record of the schema, field by field?
pub open spec fn is_part_node(node: AvroNode) -> bool {
    &&& node matches AvroNode::Record(f)
    &&& f.len() == 3
    &&& is_text_field(f[0], "format_version"@)
    &&& is_text_field(f[1], "part_id"@)
    &&& f[2].0 == "superfiles"@
    &&& f[2].1 matches AvroNode::Array(rows) && forall|i: int|
        0 <= i < rows.len() ==> is_superfile_node(#[trigger] rows[i])
}

/// Is the leaf `node` within what the datum reader takes?
pub open spec fn leaf_fits(node: AvroNode) -> bool {
    match node {
        AvroNode::Binary(b) => b.len() <= DATUM_BYTES_MAX,
        AvroNode::Text(s) => vstd::utf8::encode_utf8(s).len() <= DATUM_BYTES_MAX,
        AvroNode::Union(_, inner) => match *inner {
            AvroNode::Binary(b) => b.len() <= DATUM_BYTES_MAX,
            _ => true,
        },
        _ => true,
    }
}

/// Is every field of the superfile record within what the datum reader takes?
pub open spec fn row_fits(node: AvroNode) -> bool {
    node matches AvroNode::Record(f) && forall|i: int|
        0 <= i < f.len() ==> leaf_fits((#[trigger] f[i]).1)
}

/// Is the manifest-part record within what the datum reader takes?
pub open spec fn part_fits(node: AvroNode) -> bool {
    &&& node matches AvroNode::Record(f)
    &&& leaf_fits(f[0].1)
    &&& leaf_fits(f[1].1)
    &&& f[2].1 matches AvroNode::Array(rows) && rows.len() <= DATUM_ROWS_MAX && forall|i: int|
        0 <= i < rows.len() ==> row_fits(#[trigger] rows[i])
}

/// The bytes that `to_avro_datum` of `apache_avro` writes for a value under a
/// schema.
pub uninterp spec fn avro_datum_bytes(schema: Seq<char>, node: AvroNode) -> Seq<u8>;

/// What `from_avro_datum` of `apache_avro` reads from bytes under a schema:
/// the value, or the text of its error.
pub uninterp spec fn avro_datum_value(schema: Seq<char>, bytes: Seq<u8>) -> Result<
    AvroNode,
    Seq<char>,
>;

/// Is `res` the value `node`?
pub open spec fn reads_as_node(res: Result<AvroNode, Seq<char>>, node: AvroNode) -> bool {
    res == Ok::<AvroNode, Seq<char>>(node)
}

/// [`avro_datum_value`] for a result of [`read_value`].
pub open spec fn value_result(res: Result<Value, String>) -> Result<AvroNode, Seq<char>> {
    match res {
        Ok(value) => Ok(value_node(value)),
        Err(text) => Err(text@),
    }
}

/// [`avro_datum_value`] for a result of [`read_datum`].
pub open spec fn node_result(res: Result<AvroValue, String>) -> Result<AvroNode, Seq<char>> {
    match res {
        Ok(value) => Ok(value.node()),
        Err(text) => Err(text@),
    }
}

/// Writes a manifest-part record. Calls `to_avro_datum`, which takes every
/// record that has the fields of the schema; [`avro_datum_bytes`] names what
/// it writes. `from_avro_datum` reads the same record from it, as long as no
/// field is above the reader's allocation limit, which is left at the
/// crate's default.
#[verifier::external_body]
#[allow(deprecated)]
fn write_value(schema: &str, value: Value) -> (bytes: Vec<u8>)
    requires
        schema@ == PART_SCHEMA@,
        is_part_node(value_node(value)),
    ensures
        bytes@ == avro_datum_bytes(schema@, value_node(value)),
        part_fits(value_node(value)) ==> reads_as_node(
            avro_datum_value(schema@, bytes@),
            value_node(value),
        ),
{
    let schema = apache_avro::Schema::parse_str(schema).expect("schema parses");
    apache_avro::to_avro_datum(&schema, value).expect("record has the schema's fields")
}

/// Reads a manifest-part record. Calls `from_avro_datum`; under the crate's
/// default allocation limit its result is a function of the bytes, which
/// [`avro_datum_value`] names. Bytes after the datum are not read.
#[verifier::external_body]
#[allow(deprecated)]
fn read_value(schema: &str, bytes: &[u8]) -> (res: Result<Value, String>)
    requires
        schema@ == PART_SCHEMA@,
    ensures
        value_result(res) == avro_datum_value(schema@, bytes@),
{
    let schema = apache_avro::Schema::parse_str(schema).expect("schema parses");
    let mut rest = bytes;
    apache_avro::from_avro_datum(&schema, &mut rest, None).map_err(|e| e.to_string())
}

/// Writes a manifest-part record.
pub(crate) fn write_datum(schema: &str, value: AvroValue) -> (bytes: Vec<u8>)
    requires
        schema@ == PART_SCHEMA@,
        is_part_node(value.node()),
    ensures
        bytes@ == avro_datum_bytes(schema@, value.node()),
        part_fits(value.node()) ==> avro_datum_value(schema@, bytes@) == Ok::<AvroNode, Seq<char>>(
            value.node(),
        ),
{
    write_value(schema, to_outside(value))
}

/// Reads a manifest-part record.
pub(crate) fn read_datum(schema: &str, bytes: &[u8]) -> (res: Result<AvroValue, String>)
    requires
        schema@ == PART_SCHEMA@,
    ensures
        node_result(res) == avro_datum_value(schema@, bytes@),
{
    match read_value(schema, bytes) {
        Ok(value) => Ok(from_outside(value)),
        Err(text) => Err(text),
    }
}

} // verus!
