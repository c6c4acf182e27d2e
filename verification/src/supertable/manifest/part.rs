//! One node of the manifest: a bounded list of superfiles, written as an Avro
//! datum inside a zstd frame and addressed by the digest of the frame.

use std::sync::Arc;
use vstd::prelude::*;
use vstd::string::StringExecFns;
use crate::numbers::{
    be_bytes, be_value, lemma_be_reads_back, lemma_byte_spans, push_be, read_be,
};
use crate::ids::{is_random_uuid, parse_uuid, random_uuid, uuid_chars, uuid_of, uuid_text};
use crate::supertable::manifest::avro::{
    avro_datum_bytes, avro_datum_value, is_part_node, is_superfile_node, leaf_fits, part_fits,
    read_datum, row_fits, write_datum, AvroNode, AvroValue, AVRO_UNION_NULL_INDEX,
    AVRO_UNION_VALUE_INDEX, DATUM_BYTES_MAX, DATUM_ROWS_MAX, ID_COLUMN_FIXED_BYTES, PART_SCHEMA,
};
use crate::supertable::manifest::error::{DecodeError, PartFault, PartParseError};
use crate::supertable::manifest::frame::{
    blake3_digest, compress, decompress, digest, zstd_content, zstd_frame,
};
use crate::supertable::manifest::offsets::{
    decode_subsection_offsets, encode_subsection_offsets, fits_packed_form,
    lemma_offsets_read_back, offsets_bytes, offsets_of, OffsetsView, SubsectionOffsets,
};
use crate::text::{
    from_chars, hex, hex_digit_value, hex_value, is_hex, push_hex, same_text, to_chars, unhex,
};

verus! {

/// Version written into every part. Parts of another major version are
/// rejected; other minor versions are read.
pub const FORMAT_VERSION: &'static str = "1.0";

/// Bytes of a digest.
pub const BLAKE3_DIGEST_BYTES: usize = 32;

/// Hexadecimal digits of a digest.
pub const BLAKE3_HEX_LEN: usize = 64;

/// Hexadecimal digits that the short form of a digest shows.
const CONTENT_HASH_DEBUG_HEX_PREFIX_LEN: usize = 8;

/// Digest of the compressed bytes of a part. Parts with the same bytes have
/// the same digest, so they share one object in storage.
#[derive(Debug, Copy, Clone, PartialEq, Eq, Hash)]
pub struct ContentHash(pub [u8; 32]);

impl View for ContentHash {
    type V = Seq<u8>;

    open spec fn view(&self) -> Seq<u8> {
        self.0@
    }
}

impl ContentHash {
    /// The digest of `bytes`.
    pub fn of(bytes: &[u8]) -> (hash: Self)
        ensures
            hash@ == blake3_digest(bytes@),
    {
        ContentHash(digest(bytes))
    }

    /// The 64 lower-case hexadecimal digits.
    pub fn to_hex(&self) -> (text: String)
        ensures
            text@ == hex(self@),
            text@.len() == BLAKE3_HEX_LEN,
    {
        let mut text = String::new();
        push_hex(&mut text, self.0.as_slice());
        assert(text@ =~= hex(self@));
        text
    }

    /// The digest that 64 hexadecimal digits of either case spell; `None` for
    /// any other text.
    pub fn from_hex(hex: &str) -> (res: Option<Self>)
        ensures
            res is Some <==> hex@.len() == BLAKE3_HEX_LEN && is_hex(hex@),
            res matches Some(hash) ==> hash@ == unhex(hex@),
    {
        let chars = to_chars(hex);
        if chars.len() != BLAKE3_HEX_LEN {
            return None;
        }
        assert(chars@.subrange(0, 64) =~= hex@);
        hash_of_chars(&chars, 0)
    }

    /// The short form for logs: the first 8 digits.
    pub fn debug_text(&self) -> (text: String)
        ensures
            text@ == "blake3:"@ + hex(self@).subrange(0, 8) + "…"@,
    {
        let digits = to_chars(&self.to_hex());
        let mut text = "blake3:".to_owned();
        text.append(&from_chars(&digits, 0, CONTENT_HASH_DEBUG_HEX_PREFIX_LEN));
        text.append("…");
        text
    }

    /// The full form.
    pub fn display_text(&self) -> (text: String)
        ensures
            text@ == "blake3:"@ + hex(self@),
    {
        let mut text = "blake3:".to_owned();
        push_hex(&mut text, self.0.as_slice());
        text
    }
}

/// Are the two digests equal?
pub(crate) fn same_hash(a: &ContentHash, b: &ContentHash) -> (res: bool)
    ensures
        res == (a@ == b@),
{
    let mut i: usize = 0;
    while i < 32
        invariant
            i <= 32,
            forall|k: int| 0 <= k < i ==> a@[k] == b@[k],
        decreases 32 - i,
    {
        if a.0[i] != b.0[i] {
            return false;
        }
        i = i + 1;
    }
    assert(a@ =~= b@);
    true
}

/// The digest that the 64 characters from `from` on spell.
pub(crate) fn hash_of_chars(chars: &[char], from: usize) -> (res: Option<ContentHash>)
    requires
        from + BLAKE3_HEX_LEN <= chars@.len(),
    ensures
        res is Some <==> is_hex(chars@.subrange(from as int, from + BLAKE3_HEX_LEN)),
        res matches Some(hash) ==> hash@ == unhex(
            chars@.subrange(from as int, from + BLAKE3_HEX_LEN),
        ),
{
    let ghost s = chars@.subrange(from as int, from + BLAKE3_HEX_LEN);
    assert(chars.len() == chars@.len());
    let mut out = [0u8;32];
    let mut i: usize = 0;
    while i < BLAKE3_DIGEST_BYTES
        invariant
            chars.len() == chars@.len(),
            i <= BLAKE3_DIGEST_BYTES,
            from + BLAKE3_HEX_LEN <= chars@.len(),
            s == chars@.subrange(from as int, from + BLAKE3_HEX_LEN),
            forall|k: int| 0 <= k < 2 * i ==> hex_value(#[trigger] s[k]) is Some,
            forall|k: int| 0 <= k < i ==> out@[k] == (#[trigger] unhex(s)[k]),
        decreases BLAKE3_DIGEST_BYTES - i,
    {
        assert(s[2 * i] == chars@[from + 2 * i]);
        assert(s[2 * i + 1] == chars@[from + 2 * i + 1]);
        let high = match hex_digit_value(chars[from + 2 * i]) {
            Some(v) => v,
            None => {
                return None;
            },
        };
        let low = match hex_digit_value(chars[from + 2 * i + 1]) {
            Some(v) => v,
            None => {
                return None;
            },
        };
        out[i] = high * 16 + low;
        i = i + 1;
    }
    assert(out@ =~= unhex(s));
    Some(ContentHash(out))
}

/// Reading the hexadecimal form of a digest gives the digest back.
pub proof fn lemma_hash_reads_back(hash: ContentHash)
    ensures
        hex(hash@).len() == BLAKE3_HEX_LEN,
        is_hex(hex(hash@)),
        unhex(hex(hash@)) == hash@,
{
    crate::text::lemma_hex_reads_back(hash@);
}

/// Identifier of a part: random, and unrelated to the content.
#[derive(Debug, Copy, Clone, PartialEq, Eq, Hash, Structural)]
pub struct PartId(pub u128);

impl PartId {
    /// A new random identifier.
    pub fn new_v4() -> (id: Self)
        ensures
            is_random_uuid(id.0),
    {
        PartId(random_uuid())
    }

    /// The hyphenated form.
    pub fn display_text(&self) -> (text: String)
        ensures
            text@ == uuid_chars(self.0),
    {
        uuid_text(self.0)
    }
}

/// Where a superfile is stored.
#[derive(Debug, Copy, Clone, PartialEq, Eq, Hash, Structural)]
pub struct SuperfileUri(pub u128);

/// What the manifest knows of one superfile. The three summaries are kept in
/// their encoded form.
#[derive(Debug)]
pub struct SuperfileEntry {
    pub superfile_id: u128,
    pub uri: SuperfileUri,
    pub n_docs: u64,
    pub id_min: i128,
    pub id_max: i128,
    pub scalar_stats: Vec<u8>,
    pub fts_summary: Vec<u8>,
    pub vector_summary: Vec<u8>,
    pub partition_key: Vec<u8>,
    pub partition_hint: Option<u32>,
    pub subsection_offsets: Option<SubsectionOffsets>,
}

/// [`SuperfileEntry`] over sequences.
#[verifier::ext_equal]
pub struct EntryView {
    pub superfile_id: u128,
    pub uri: u128,
    pub n_docs: u64,
    pub id_min: i128,
    pub id_max: i128,
    pub scalar_stats: Seq<u8>,
    pub fts_summary: Seq<u8>,
    pub vector_summary: Seq<u8>,
    pub partition_key: Seq<u8>,
    pub partition_hint: Option<u32>,
    pub subsection_offsets: Option<OffsetsView>,
}

impl View for SuperfileEntry {
    type V = EntryView;

    open spec fn view(&self) -> EntryView {
        EntryView {
            superfile_id: self.superfile_id,
            uri: self.uri.0,
            n_docs: self.n_docs,
            id_min: self.id_min,
            id_max: self.id_max,
            scalar_stats: self.scalar_stats@,
            fts_summary: self.fts_summary@,
            vector_summary: self.vector_summary@,
            partition_key: self.partition_key@,
            partition_hint: self.partition_hint,
            subsection_offsets: match self.subsection_offsets {
                Some(off) => Some(off@),
                None => None,
            },
        }
    }
}

/// A bounded, ordered list of superfiles. A part never changes once written.
#[derive(Debug)]
pub struct ManifestPart {
    pub format_version: String,
    pub part_id: PartId,
    pub superfiles: Vec<Arc<SuperfileEntry>>,
}

/// [`ManifestPart`] over sequences.
#[verifier::ext_equal]
pub struct PartView {
    pub format_version: Seq<char>,
    pub part_id: u128,
    pub superfiles: Seq<EntryView>,
}

/// The entries over sequences.
pub open spec fn entries_view(entries: Seq<Arc<SuperfileEntry>>) -> Seq<EntryView> {
    entries.map_values(|e: Arc<SuperfileEntry>| (*e)@)
}

impl View for ManifestPart {
    type V = PartView;

    open spec fn view(&self) -> PartView {
        PartView {
            format_version: self.format_version@,
            part_id: self.part_id.0,
            superfiles: entries_view(self.superfiles@),
        }
    }
}

// ---- Fields of a record ---------------------------------------------------

/// The fields over sequences.
pub open spec fn field_nodes(fields: Seq<(String, AvroValue)>) -> Seq<(Seq<char>, AvroNode)> {
    Seq::new(fields.len(), |i: int| (fields[i].0@, fields[i].1.node()))
}

/// The fields by name; of two with the same name the later one counts.
pub open spec fn fields_map(fields: Seq<(Seq<char>, AvroNode)>) -> Map<Seq<char>, AvroNode>
    decreases fields.len(),
{
    if fields.len() == 0 {
        Map::empty()
    } else {
        fields_map(fields.drop_last()).insert(fields.last().0, fields.last().1)
    }
}

/// The value of the last field named `name`.
proof fn lemma_last_field(fields: Seq<(Seq<char>, AvroNode)>, i: int)
    requires
        0 <= i < fields.len(),
        forall|k: int| i < k < fields.len() ==> (#[trigger] fields[k]).0 != fields[i].0,
    ensures
        fields_map(fields).contains_key(fields[i].0),
        fields_map(fields)[fields[i].0] == fields[i].1,
    decreases fields.len(),
{
    if i < fields.len() - 1 {
        assert(fields.last() == fields[fields.len() - 1]);
        assert forall|k: int| i < k < fields.drop_last().len() implies (
        #[trigger] fields.drop_last()[k]).0 != fields.drop_last()[i].0 by {
            assert(fields.drop_last()[k] == fields[k]);
        }
        lemma_last_field(fields.drop_last(), i);
    }
}

/// A name that no field has is not in the map.
proof fn lemma_no_field(fields: Seq<(Seq<char>, AvroNode)>, name: Seq<char>)
    requires
        forall|k: int| 0 <= k < fields.len() ==> (#[trigger] fields[k]).0 != name,
    ensures
        !fields_map(fields).contains_key(name),
    decreases fields.len(),
{
    if fields.len() > 0 {
        assert(fields.last() == fields[fields.len() - 1]);
        assert forall|k: int| 0 <= k < fields.drop_last().len() implies (
        #[trigger] fields.drop_last()[k]).0 != name by {
            assert(fields.drop_last()[k] == fields[k]);
        }
        lemma_no_field(fields.drop_last(), name);
    }
}

/// Dropping a field changes nothing but what its name maps to.
proof fn lemma_field_removed(fields: Seq<(Seq<char>, AvroNode)>, i: int)
    requires
        0 <= i < fields.len(),
    ensures
        fields_map(fields.remove(i)).remove(fields[i].0) == fields_map(fields).remove(fields[i].0),
    decreases fields.len(),
{
    let name = fields[i].0;
    if i == fields.len() - 1 {
        assert(fields.remove(i) =~= fields.drop_last());
        assert(fields_map(fields.remove(i)).remove(name) =~= fields_map(fields).remove(name));
    } else {
        lemma_field_removed(fields.drop_last(), i);
        assert(fields.remove(i).drop_last() =~= fields.drop_last().remove(i));
        assert(fields.remove(i).last() == fields.last());
        let key = fields.last().0;
        let value = fields.last().1;
        let a = fields_map(fields.drop_last().remove(i));
        let b = fields_map(fields.drop_last());
        assert(a.remove(name) == b.remove(name));
        if key == name {
            assert(a.insert(key, value).remove(name) =~= a.remove(name));
            assert(b.insert(key, value).remove(name) =~= b.remove(name));
        } else {
            assert(a.insert(key, value).remove(name) =~= a.remove(name).insert(key, value));
            assert(b.insert(key, value).remove(name) =~= b.remove(name).insert(key, value));
        }
    }
}

/// Takes the field named `name` out of `fields`.
pub fn take_field(fields: &mut Vec<(String, AvroValue)>, name: &str) -> (res: Option<AvroValue>)
    ensures
        fields_map(field_nodes(final(fields)@)) == fields_map(field_nodes(old(fields)@)).remove(
            name@,
        ),
        res is Some <==> fields_map(field_nodes(old(fields)@)).contains_key(name@),
        res matches Some(value) ==> value.node() == fields_map(field_nodes(old(fields)@))[name@],
{
    let ghost all = fields_map(field_nodes(fields@));
    let mut found: Option<AvroValue> = None;
    let mut i: usize = fields.len();
    while i > 0
        invariant
            i <= fields@.len(),
            all == fields_map(field_nodes(old(fields)@)),
            forall|k: int| i <= k < fields@.len() ==> (#[trigger] fields@[k]).0@ != name@,
            fields_map(field_nodes(fields@)).remove(name@) == all.remove(name@),
            found is None ==> fields@ == old(fields)@,
            found matches Some(value) ==> all.contains_key(name@) && all[name@] == value.node(),
        decreases i,
    {
        i = i - 1;
        if same_text(&fields[i].0, name) {
            let ghost nodes = field_nodes(fields@);
            proof {
                assert forall|k: int| i < k < nodes.len() implies (#[trigger] nodes[k]).0
                    != nodes[i as int].0 by {
                    assert(fields@[k].0@ != name@);
                }
                lemma_last_field(nodes, i as int);
                lemma_field_removed(nodes, i as int);
            }
            let (_, value) = fields.remove(i);
            proof {
                assert(field_nodes(fields@) =~= nodes.remove(i as int));
            }
            if found.is_none() {
                found = Some(value);
            }
        }
    }
    proof {
        let nodes = field_nodes(fields@);
        assert forall|k: int| 0 <= k < nodes.len() implies (#[trigger] nodes[k]).0 != name@ by {
            assert(fields@[k].0@ != name@);
        }
        lemma_no_field(nodes, name@);
        assert(fields_map(nodes).remove(name@) =~= fields_map(nodes));
    }
    found
}

/// The field named `name`, or the fault that it is missing.
pub open spec fn field(map: Map<Seq<char>, AvroNode>, name: Seq<char>) -> Result<
    AvroNode,
    PartFault,
> {
    if map.contains_key(name) {
        Ok(map[name])
    } else {
        Err(PartFault::MissingField(name))
    }
}

/// The text of the field named `name`.
pub open spec fn text_field(map: Map<Seq<char>, AvroNode>, name: Seq<char>) -> Result<
    Seq<char>,
    PartFault,
> {
    match field(map, name) {
        Err(fault) => Err(fault),
        Ok(AvroNode::Text(text)) => Ok(text),
        Ok(_) => Err(PartFault::WrongFieldType(name)),
    }
}

/// The number in the field named `name`.
pub open spec fn long_field(map: Map<Seq<char>, AvroNode>, name: Seq<char>) -> Result<
    i64,
    PartFault,
> {
    match field(map, name) {
        Err(fault) => Err(fault),
        Ok(AvroNode::Long(v)) => Ok(v),
        Ok(_) => Err(PartFault::WrongFieldType(name)),
    }
}

/// The bytes of the field named `name`.
pub open spec fn bytes_field(map: Map<Seq<char>, AvroNode>, name: Seq<char>) -> Result<
    Seq<u8>,
    PartFault,
> {
    match field(map, name) {
        Err(fault) => Err(fault),
        Ok(AvroNode::Binary(bytes)) => Ok(bytes),
        Ok(_) => Err(PartFault::WrongFieldType(name)),
    }
}

/// The identifier in the field named `name`: 16 bytes, most significant
/// first, in two's complement.
pub open spec fn id_field(map: Map<Seq<char>, AvroNode>, name: Seq<char>) -> Result<
    i128,
    PartFault,
> {
    match field(map, name) {
        Err(fault) => Err(fault),
        Ok(AvroNode::Fixed(n, bytes)) => if n == ID_COLUMN_FIXED_BYTES && bytes.len()
            == ID_COLUMN_FIXED_BYTES {
            Ok((be_value(bytes) as u128) as i128)
        } else {
            Err(PartFault::WrongFieldType(name))
        },
        Ok(_) => Err(PartFault::WrongFieldType(name)),
    }
}

/// The value inside an optional field, whether or not it comes in a union.
pub open spec fn arm(node: AvroNode) -> AvroNode {
    match node {
        AvroNode::Union(_, inner) => *inner,
        other => other,
    }
}

/// The number in the optional field named `name`.
pub open spec fn optional_int_field(map: Map<Seq<char>, AvroNode>, name: Seq<char>) -> Result<
    Option<i32>,
    PartFault,
> {
    match field(map, name) {
        Err(fault) => Err(fault),
        Ok(node) => match arm(node) {
            AvroNode::Null => Ok(None),
            AvroNode::Int(v) => Ok(Some(v)),
            _ => Err(PartFault::WrongFieldType(name)),
        },
    }
}

/// The bytes of the optional field named `name`; a missing field counts as
/// absent, so that parts without it are read.
pub open spec fn optional_bytes_field(map: Map<Seq<char>, AvroNode>, name: Seq<char>) -> Result<
    Option<Seq<u8>>,
    PartFault,
> {
    if !map.contains_key(name) {
        Ok(None)
    } else {
        match arm(map[name]) {
            AvroNode::Null => Ok(None),
            AvroNode::Binary(bytes) => Ok(Some(bytes)),
            _ => Err(PartFault::WrongFieldType(name)),
        }
    }
}

/// Takes a text field.
pub fn take_string(fields: &mut Vec<(String, AvroValue)>, name: &'static str) -> (res: Result<
    String,
    PartParseError,
>)
    ensures
        fields_map(field_nodes(final(fields)@)) == fields_map(field_nodes(old(fields)@)).remove(
            name@,
        ),
        res matches Ok(text) ==> text_field(fields_map(field_nodes(old(fields)@)), name@) == Ok::<
            Seq<char>,
            PartFault,
        >(text@),
        res matches Err(e) ==> text_field(fields_map(field_nodes(old(fields)@)), name@) == Err::<
            Seq<char>,
            PartFault,
        >(e@),
{
    match take_field(fields, name) {
        None => Err(PartParseError::MissingField(name)),
        Some(AvroValue::Text(text)) => Ok(text),
        Some(_) => Err(PartParseError::WrongFieldType(name)),
    }
}

/// Takes a number field.
pub fn take_long(fields: &mut Vec<(String, AvroValue)>, name: &'static str) -> (res: Result<
    i64,
    PartParseError,
>)
    ensures
        fields_map(field_nodes(final(fields)@)) == fields_map(field_nodes(old(fields)@)).remove(
            name@,
        ),
        res matches Ok(v) ==> long_field(fields_map(field_nodes(old(fields)@)), name@) == Ok::<
            i64,
            PartFault,
        >(v),
        res matches Err(e) ==> long_field(fields_map(field_nodes(old(fields)@)), name@) == Err::<
            i64,
            PartFault,
        >(e@),
{
    match take_field(fields, name) {
        None => Err(PartParseError::MissingField(name)),
        Some(AvroValue::Long(v)) => Ok(v),
        Some(_) => Err(PartParseError::WrongFieldType(name)),
    }
}

/// Takes a bytes field.
pub fn take_bytes(fields: &mut Vec<(String, AvroValue)>, name: &'static str) -> (res: Result<
    Vec<u8>,
    PartParseError,
>)
    ensures
        fields_map(field_nodes(final(fields)@)) == fields_map(field_nodes(old(fields)@)).remove(
            name@,
        ),
        res matches Ok(b) ==> bytes_field(fields_map(field_nodes(old(fields)@)), name@) == Ok::<
            Seq<u8>,
            PartFault,
        >(b@),
        res matches Err(e) ==> bytes_field(fields_map(field_nodes(old(fields)@)), name@) == Err::<
            Seq<u8>,
            PartFault,
        >(e@),
{
    match take_field(fields, name) {
        None => Err(PartParseError::MissingField(name)),
        Some(AvroValue::Binary(bytes)) => Ok(bytes),
        Some(_) => Err(PartParseError::WrongFieldType(name)),
    }
}

/// Takes an identifier field.
pub fn take_i128_be(fields: &mut Vec<(String, AvroValue)>, name: &'static str) -> (res: Result<
    i128,
    PartParseError,
>)
    ensures
        fields_map(field_nodes(final(fields)@)) == fields_map(field_nodes(old(fields)@)).remove(
            name@,
        ),
        res matches Ok(v) ==> id_field(fields_map(field_nodes(old(fields)@)), name@) == Ok::<
            i128,
            PartFault,
        >(v),
        res matches Err(e) ==> id_field(fields_map(field_nodes(old(fields)@)), name@) == Err::<
            i128,
            PartFault,
        >(e@),
{
    match take_field(fields, name) {
        None => Err(PartParseError::MissingField(name)),
        Some(AvroValue::Fixed(n, bytes)) => {
            if n != ID_COLUMN_FIXED_BYTES || bytes.len() != ID_COLUMN_FIXED_BYTES {
                return Err(PartParseError::WrongFieldType(name));
            }
            let value = read_be(&bytes, 0, ID_COLUMN_FIXED_BYTES);
            assert(bytes@.subrange(0, 16) =~= bytes@);
            Ok(value as i128)
        },
        Some(_) => Err(PartParseError::WrongFieldType(name)),
    }
}

/// Takes an optional number field.
pub fn take_optional_int(fields: &mut Vec<(String, AvroValue)>, name: &'static str) -> (res: Result<
    Option<i32>,
    PartParseError,
>)
    ensures
        fields_map(field_nodes(final(fields)@)) == fields_map(field_nodes(old(fields)@)).remove(
            name@,
        ),
        res matches Ok(v) ==> optional_int_field(fields_map(field_nodes(old(fields)@)), name@)
            == Ok::<Option<i32>, PartFault>(v),
        res matches Err(e) ==> optional_int_field(fields_map(field_nodes(old(fields)@)), name@)
            == Err::<Option<i32>, PartFault>(e@),
{
    proof {
        reveal_with_fuel(AvroValue::node, 2);
    }
    match take_field(fields, name) {
        None => Err(PartParseError::MissingField(name)),
        Some(AvroValue::Union(_, inner)) => match *inner {
            AvroValue::Null => Ok(None),
            AvroValue::Int(v) => Ok(Some(v)),
            _ => Err(PartParseError::WrongFieldType(name)),
        },
        Some(AvroValue::Null) => Ok(None),
        Some(AvroValue::Int(v)) => Ok(Some(v)),
        Some(_) => Err(PartParseError::WrongFieldType(name)),
    }
}

/// Takes an optional bytes field.
pub fn take_optional_bytes(fields: &mut Vec<(String, AvroValue)>, name: &'static str) -> (res:
    Result<Option<Vec<u8>>, PartParseError>)
    ensures
        fields_map(field_nodes(final(fields)@)) == fields_map(field_nodes(old(fields)@)).remove(
            name@,
        ),
        res matches Ok(None) ==> optional_bytes_field(
            fields_map(field_nodes(old(fields)@)),
            name@,
        ) == Ok::<Option<Seq<u8>>, PartFault>(None),
        res matches Ok(Some(b)) ==> optional_bytes_field(
            fields_map(field_nodes(old(fields)@)),
            name@,
        ) == Ok::<Option<Seq<u8>>, PartFault>(Some(b@)),
        res matches Err(e) ==> optional_bytes_field(fields_map(field_nodes(old(fields)@)), name@)
            == Err::<Option<Seq<u8>>, PartFault>(e@),
{
    proof {
        reveal_with_fuel(AvroValue::node, 2);
    }
    match take_field(fields, name) {
        None => Ok(None),
        Some(AvroValue::Union(_, inner)) => match *inner {
            AvroValue::Null => Ok(None),
            AvroValue::Binary(bytes) => Ok(Some(bytes)),
            _ => Err(PartParseError::WrongFieldType(name)),
        },
        Some(AvroValue::Null) => Ok(None),
        Some(AvroValue::Binary(bytes)) => Ok(Some(bytes)),
        Some(_) => Err(PartParseError::WrongFieldType(name)),
    }
}

// ---- Versions ---------------------------------------------------------------

/// The characters before the first dot.
pub open spec fn before_dot(s: Seq<char>) -> Seq<char>
    decreases s.len(),
{
    if s.len() == 0 || s[0] == '.' {
        Seq::empty()
    } else {
        seq![s[0]] + before_dot(s.subrange(1, s.len() as int))
    }
}

proof fn lemma_before_dot(s: Seq<char>, i: int)
    requires
        0 <= i <= s.len(),
        forall|k: int| 0 <= k < i ==> (#[trigger] s[k]) != '.',
        i == s.len() || s[i] == '.',
    ensures
        before_dot(s) == s.take(i),
    decreases i,
{
    if i == 0 {
        assert(s.take(0) =~= Seq::<char>::empty());
    } else {
        assert(s[0] != '.');
        lemma_before_dot(s.subrange(1, s.len() as int), i - 1);
        assert(s.take(i) =~= seq![s[0]] + s.subrange(1, s.len() as int).take(i - 1));
    }
}

/// Is `version` of the major version that is read?
pub open spec fn is_supported(version: Seq<char>) -> bool {
    before_dot(version) == before_dot(FORMAT_VERSION@)
}

/// The major part of [`FORMAT_VERSION`] is `1`.
pub proof fn lemma_supported_major()
    ensures
        before_dot(FORMAT_VERSION@) == seq!['1'],
{
    reveal_strlit("1.0");
    let s = FORMAT_VERSION@;
    lemma_before_dot(s, 1);
    assert(s.take(1) =~= seq!['1']);
}

/// The fault of a part of another major version.
pub open spec fn version_fault(version: Seq<char>) -> PartFault {
    PartFault::IncompatibleMajorVersion { got: version, supported: FORMAT_VERSION@ }
}

/// Accepts versions whose major part is that of [`FORMAT_VERSION`].
pub fn check_major(version: &str) -> (res: Result<(), PartParseError>)
    ensures
        res is Ok <==> is_supported(version@),
        is_supported(version@) <==> before_dot(version@) == seq!['1'],
        res matches Err(e) ==> e@ == version_fault(version@),
{
    proof {
        lemma_supported_major();
    }
    let chars = to_chars(version);
    let mut i: usize = 0;
    while i < chars.len() && chars[i] != '.'
        invariant
            i <= chars@.len(),
            chars@ == version@,
            forall|k: int| 0 <= k < i ==> (#[trigger] chars@[k]) != '.',
        decreases chars.len() - i,
    {
        i = i + 1;
    }
    proof {
        lemma_before_dot(version@, i as int);
    }
    if i == 1 && chars[0] == '1' {
        assert(version@.take(1) =~= seq!['1']);
        Ok(())
    } else {
        assert(version@.take(i as int) != seq!['1']) by {
            if version@.take(i as int) == seq!['1'] {
                assert(version@.take(i as int).len() == i);
                assert(version@.take(i as int)[0] == version@[0]);
            }
        }
        Err(
            PartParseError::IncompatibleMajorVersion {
                got: version.to_owned(),
                supported: FORMAT_VERSION.to_owned(),
            },
        )
    }
}

// ---- Decoding ---------------------------------------------------------------

/// The UUID in the text field named `name`.
pub open spec fn uuid_field(map: Map<Seq<char>, AvroNode>, name: Seq<char>) -> Result<
    u128,
    PartFault,
> {
    match text_field(map, name) {
        Err(fault) => Err(fault),
        Ok(text) => match uuid_of(text) {
            Ok(id) => Ok(id),
            Err(reason) => Err(PartFault::BadSuperfileId(reason)),
        },
    }
}

/// The offsets packed into the optional field named `name`.
pub open spec fn offsets_field(map: Map<Seq<char>, AvroNode>, name: Seq<char>) -> Result<
    Option<OffsetsView>,
    PartFault,
> {
    match optional_bytes_field(map, name) {
        Err(fault) => Err(fault),
        Ok(None) => Ok(None),
        Ok(Some(bytes)) => match offsets_of(bytes) {
            Err(fault) => Err(fault),
            Ok(off) => Ok(Some(off)),
        },
    }
}

/// The superfile entry with these fields; of several faults the first in
/// field order counts.
pub open spec fn entry_of_fields(map: Map<Seq<char>, AvroNode>) -> Result<EntryView, PartFault> {
    let superfile_id = uuid_field(map, "superfile_id"@);
    let uri = uuid_field(map, "uri"@);
    let n_docs = long_field(map, "n_docs"@);
    let id_min = id_field(map, "id_min"@);
    let id_max = id_field(map, "id_max"@);
    let partition_key = bytes_field(map, "partition_key"@);
    let partition_hint = optional_int_field(map, "partition_hint"@);
    let scalar_stats = bytes_field(map, "scalar_stats"@);
    let fts_summary = bytes_field(map, "fts_summary"@);
    let vector_summary = bytes_field(map, "vector_summary"@);
    let offsets = offsets_field(map, "subsection_offsets"@);
    if superfile_id is Err {
        Err(superfile_id->Err_0)
    } else if uri is Err {
        Err(uri->Err_0)
    } else if n_docs is Err {
        Err(n_docs->Err_0)
    } else if id_min is Err {
        Err(id_min->Err_0)
    } else if id_max is Err {
        Err(id_max->Err_0)
    } else if partition_key is Err {
        Err(partition_key->Err_0)
    } else if partition_hint is Err {
        Err(partition_hint->Err_0)
    } else if scalar_stats is Err {
        Err(scalar_stats->Err_0)
    } else if fts_summary is Err {
        Err(fts_summary->Err_0)
    } else if vector_summary is Err {
        Err(vector_summary->Err_0)
    } else if offsets is Err {
        Err(offsets->Err_0)
    } else {
        Ok(
            EntryView {
                superfile_id: superfile_id->Ok_0,
                uri: uri->Ok_0,
                n_docs: n_docs->Ok_0 as u64,
                id_min: id_min->Ok_0,
                id_max: id_max->Ok_0,
                scalar_stats: scalar_stats->Ok_0,
                fts_summary: fts_summary->Ok_0,
                vector_summary: vector_summary->Ok_0,
                partition_key: partition_key->Ok_0,
                partition_hint: match partition_hint->Ok_0 {
                    Some(v) => Some(v as u32),
                    None => None,
                },
                subsection_offsets: offsets->Ok_0,
            },
        )
    }
}

/// The summaries that a superfile record carries, each as the bytes of a codec
/// of its own.
#[derive(Debug, Clone, Copy, PartialEq, Eq, Structural)]
pub enum Summary {
    /// The least and greatest value of each column.
    ScalarStats,
    /// The terms of each text column.
    FtsSummary,
    /// The centroids of each vector column.
    VectorSummary,
}

/// A summary that its codec refuses, and why.
#[derive(Debug, Clone)]
pub struct RefusedSummary {
    pub summary: Summary,
    pub bytes: Vec<u8>,
    pub error: DecodeError,
}

/// The errors of the codecs, by what they refuse.
pub type Refusals = Map<(Summary, Seq<u8>), DecodeError>;

/// The errors in a list of refused summaries.
pub open spec fn refusals(refused: Seq<RefusedSummary>) -> Refusals
    decreases refused.len(),
{
    if refused.len() == 0 {
        Map::empty()
    } else {
        let last = refused.last();
        refusals(refused.drop_last()).insert((last.summary, last.bytes@), last.error)
    }
}

/// The entry if the codecs accept its summaries, else the error of the first
/// that they refuse.
pub open spec fn checked_entry(entry: EntryView, refusals: Refusals) -> Result<
    EntryView,
    PartFault,
> {
    let scalar_stats = (Summary::ScalarStats, entry.scalar_stats);
    let fts_summary = (Summary::FtsSummary, entry.fts_summary);
    let vector_summary = (Summary::VectorSummary, entry.vector_summary);
    if refusals.contains_key(scalar_stats) {
        Err(PartFault::SummaryDecode(refusals[scalar_stats]))
    } else if refusals.contains_key(fts_summary) {
        Err(PartFault::SummaryDecode(refusals[fts_summary]))
    } else if refusals.contains_key(vector_summary) {
        Err(PartFault::SummaryDecode(refusals[vector_summary]))
    } else {
        Ok(entry)
    }
}

/// The superfile entry that a record stands for, its summaries not looked at.
pub open spec fn raw_entry_of(node: AvroNode) -> Result<EntryView, PartFault> {
    match node {
        AvroNode::Record(fields) => entry_of_fields(fields_map(fields)),
        _ => Err(PartFault::SchemaMismatch("superfile not a record"@)),
    }
}

/// The superfile entry that a record stands for: all its fields are read
/// before its summaries are.
pub open spec fn entry_of(node: AvroNode, refusals: Refusals) -> Result<EntryView, PartFault> {
    match raw_entry_of(node) {
        Err(fault) => Err(fault),
        Ok(entry) => checked_entry(entry, refusals),
    }
}

/// The superfile entries that records stand for; the first fault counts.
pub open spec fn entries_of(rows: Seq<AvroNode>, refusals: Refusals) -> Result<
    Seq<EntryView>,
    PartFault,
>
    decreases rows.len(),
{
    if rows.len() == 0 {
        Ok(Seq::empty())
    } else {
        match entries_of(rows.drop_last(), refusals) {
            Err(fault) => Err(fault),
            Ok(entries) => match entry_of(rows.last(), refusals) {
                Err(fault) => Err(fault),
                Ok(entry) => Ok(entries.push(entry)),
            },
        }
    }
}

/// The version, the identifier and the superfile records of the part with
/// these fields; of several faults the first in field order counts, and the
/// version is looked at before anything else is read.
pub open spec fn header_of_fields(map: Map<Seq<char>, AvroNode>) -> Result<
    (Seq<char>, u128, Seq<AvroNode>),
    PartFault,
> {
    match text_field(map, "format_version"@) {
        Err(fault) => Err(fault),
        Ok(format_version) => if !is_supported(format_version) {
            Err(version_fault(format_version))
        } else {
            match uuid_field(map, "part_id"@) {
                Err(fault) => Err(fault),
                Ok(part_id) => match field(map, "superfiles"@) {
                    Err(fault) => Err(fault),
                    Ok(AvroNode::Array(rows)) => Ok((format_version, part_id, rows)),
                    Ok(_) => Err(PartFault::WrongFieldType("superfiles"@)),
                },
            }
        },
    }
}

/// The version, the identifier and the superfile records of a part's record.
pub open spec fn header_of(node: AvroNode) -> Result<
    (Seq<char>, u128, Seq<AvroNode>),
    PartFault,
> {
    match node {
        AvroNode::Record(fields) => header_of_fields(fields_map(fields)),
        _ => Err(PartFault::SchemaMismatch("top-level not a record"@)),
    }
}

/// The part that a record stands for.
pub open spec fn part_of_node(node: AvroNode, refusals: Refusals) -> Result<PartView, PartFault> {
    match header_of(node) {
        Err(fault) => Err(fault),
        Ok((format_version, part_id, rows)) => match entries_of(rows, refusals) {
            Err(fault) => Err(fault),
            Ok(superfiles) => Ok(PartView { format_version, part_id, superfiles }),
        },
    }
}

/// The record that compressed bytes hold.
pub open spec fn node_of(bytes: Seq<u8>) -> Result<AvroNode, PartFault> {
    match zstd_content(bytes) {
        Err(reason) => Err(PartFault::Zstd(reason)),
        Ok(datum) => match avro_datum_value(PART_SCHEMA@, datum) {
            Err(reason) => Err(PartFault::Avro(reason)),
            Ok(node) => Ok(node),
        },
    }
}

/// The part that compressed bytes stand for, where the codecs refuse some
/// summaries.
pub open spec fn part_of(bytes: Seq<u8>, refusals: Refusals) -> Result<PartView, PartFault> {
    match node_of(bytes) {
        Err(fault) => Err(fault),
        Ok(node) => part_of_node(node, refusals),
    }
}

/// The entries if the codecs accept the summaries of all of them, else the
/// first error.
pub open spec fn checked_entries(entries: Seq<EntryView>, refusals: Refusals) -> Result<
    Seq<EntryView>,
    PartFault,
>
    decreases entries.len(),
{
    if entries.len() == 0 {
        Ok(entries)
    } else {
        match checked_entries(entries.drop_last(), refusals) {
            Err(fault) => Err(fault),
            Ok(_) => match checked_entry(entries.last(), refusals) {
                Err(fault) => Err(fault),
                Ok(_) => Ok(entries),
            },
        }
    }
}

/// The part if the codecs accept all its summaries, else the first error.
pub open spec fn checked_part(part: PartView, refusals: Refusals) -> Result<PartView, PartFault> {
    match checked_entries(part.superfiles, refusals) {
        Err(fault) => Err(fault),
        Ok(_) => Ok(part),
    }
}

/// The entries of the records up to the first that does not read.
pub open spec fn raw_entries(rows: Seq<AvroNode>) -> Seq<EntryView>
    decreases rows.len(),
{
    if rows.len() == 0 {
        Seq::empty()
    } else {
        let rest = raw_entries(rows.drop_last());
        match raw_entry_of(rows.last()) {
            Ok(entry) if rest.len() == rows.len() - 1 => rest.push(entry),
            _ => rest,
        }
    }
}

/// The summaries of entries, each entry's in the order in which they are
/// decoded.
pub open spec fn summaries_of(entries: Seq<EntryView>) -> Seq<(Summary, Seq<u8>)>
    decreases entries.len(),
{
    if entries.len() == 0 {
        Seq::empty()
    } else {
        let entry = entries.last();
        summaries_of(entries.drop_last()) + seq![
            (Summary::ScalarStats, entry.scalar_stats),
            (Summary::FtsSummary, entry.fts_summary),
            (Summary::VectorSummary, entry.vector_summary),
        ]
    }
}

/// The summaries that compressed bytes carry.
pub open spec fn summaries_in(bytes: Seq<u8>) -> Seq<(Summary, Seq<u8>)> {
    match node_of(bytes) {
        Err(_) => Seq::empty(),
        Ok(node) => match header_of(node) {
            Err(_) => Seq::empty(),
            Ok((_, _, rows)) => summaries_of(raw_entries(rows)),
        },
    }
}

/// No two field names of a superfile record are equal.
proof fn lemma_superfile_names_differ()
    ensures
        "superfile_id"@.len() == 12,
        "uri"@.len() == 3,
        "n_docs"@.len() == 6,
        "id_min"@.len() == 6,
        "id_max"@.len() == 6,
        "partition_key"@.len() == 13,
        "partition_hint"@.len() == 14,
        "scalar_stats"@.len() == 12,
        "fts_summary"@.len() == 11,
        "vector_summary"@.len() == 14,
        "subsection_offsets"@.len() == 18,
        "superfile_id"@ != "scalar_stats"@,
        "n_docs"@ != "id_min"@,
        "n_docs"@ != "id_max"@,
        "id_min"@ != "id_max"@,
        "partition_hint"@ != "vector_summary"@,
{
    reveal_strlit("superfile_id");
    reveal_strlit("uri");
    reveal_strlit("n_docs");
    reveal_strlit("id_min");
    reveal_strlit("id_max");
    reveal_strlit("partition_key");
    reveal_strlit("partition_hint");
    reveal_strlit("scalar_stats");
    reveal_strlit("fts_summary");
    reveal_strlit("vector_summary");
    reveal_strlit("subsection_offsets");
    assert("superfile_id"@[1] != "scalar_stats"@[1]);
    assert("n_docs"@[0] != "id_min"@[0]);
    assert("n_docs"@[0] != "id_max"@[0]);
    assert("id_min"@[4] != "id_max"@[4]);
    assert("partition_hint"@[0] != "vector_summary"@[0]);
}

/// No two field names of a part record are equal.
proof fn lemma_part_names_differ()
    ensures
        "format_version"@.len() == 14,
        "part_id"@.len() == 7,
        "superfiles"@.len() == 10,
{
    reveal_strlit("format_version");
    reveal_strlit("part_id");
    reveal_strlit("superfiles");
}

/// Takes a text field and reads it as a UUID.
fn take_uuid(fields: &mut Vec<(String, AvroValue)>, name: &'static str) -> (res: Result<
    u128,
    PartParseError,
>)
    ensures
        fields_map(field_nodes(final(fields)@)) == fields_map(field_nodes(old(fields)@)).remove(
            name@,
        ),
        res matches Ok(v) ==> uuid_field(fields_map(field_nodes(old(fields)@)), name@) == Ok::<
            u128,
            PartFault,
        >(v),
        res matches Err(e) ==> uuid_field(fields_map(field_nodes(old(fields)@)), name@) == Err::<
            u128,
            PartFault,
        >(e@),
{
    let text = take_string(fields, name)?;
    match parse_uuid(&text) {
        Ok(id) => Ok(id),
        Err(reason) => Err(PartParseError::BadSuperfileId(reason)),
    }
}

/// Reads the fields of a superfile record; its summaries stay as they are.
fn read_superfile(value: AvroValue) -> (res: Result<SuperfileEntry, PartParseError>)
    ensures
        res matches Ok(entry) ==> raw_entry_of(value.node()) == Ok::<EntryView, PartFault>(entry@),
        res matches Err(e) ==> raw_entry_of(value.node()) == Err::<EntryView, PartFault>(e@),
{
    let mut map = match value {
        AvroValue::Record(fields) => fields,
        _ => {
            return Err(PartParseError::SchemaMismatch("superfile not a record".to_owned()));
        },
    };
    let ghost m = fields_map(field_nodes(map@));
    proof {
        lemma_superfile_names_differ();
        assert(value.node() == AvroNode::Record(field_nodes(map@))) by {
            assert(value.node()->Record_0 =~= field_nodes(map@));
        }
    }
    let superfile_id = take_uuid(&mut map, "superfile_id")?;
    let uri = take_uuid(&mut map, "uri")?;
    let n_docs = take_long(&mut map, "n_docs")?;
    let id_min = take_i128_be(&mut map, "id_min")?;
    let id_max = take_i128_be(&mut map, "id_max")?;
    let partition_key = take_bytes(&mut map, "partition_key")?;
    let partition_hint = match take_optional_int(&mut map, "partition_hint")? {
        Some(v) => Some(v as u32),
        None => None,
    };
    let scalar_stats = take_bytes(&mut map, "scalar_stats")?;
    let fts_summary = take_bytes(&mut map, "fts_summary")?;
    let vector_summary = take_bytes(&mut map, "vector_summary")?;
    let subsection_offsets = match take_optional_bytes(&mut map, "subsection_offsets")? {
        Some(bytes) => Some(decode_subsection_offsets(&bytes)?),
        None => None,
    };
    Ok(
        SuperfileEntry {
            superfile_id,
            uri: SuperfileUri(uri),
            n_docs: n_docs as u64,
            id_min,
            id_max,
            scalar_stats,
            fts_summary,
            vector_summary,
            partition_key,
            partition_hint,
            subsection_offsets,
        },
    )
}

/// Do the two byte strings hold the same bytes?
fn same_bytes(a: &Vec<u8>, b: &Vec<u8>) -> (res: bool)
    ensures
        res == (a@ == b@),
{
    if a.len() != b.len() {
        return false;
    }
    let mut i: usize = 0;
    while i < a.len()
        invariant
            i <= a@.len(),
            a@.len() == b@.len(),
            forall|k: int| 0 <= k < i ==> a@[k] == b@[k],
        decreases a.len() - i,
    {
        if a[i] != b[i] {
            return false;
        }
        i = i + 1;
    }
    assert(a@ =~= b@);
    true
}

/// Why the codec of a summary refuses these bytes, if it does.
fn refusal(refused: &[RefusedSummary], summary: Summary, bytes: &Vec<u8>) -> (error: Option<
    DecodeError,
>)
    ensures
        error is Some <==> refusals(refused@).contains_key((summary, bytes@)),
        error matches Some(e) ==> e == refusals(refused@)[(summary, bytes@)],
{
    let mut i: usize = refused.len();
    assert(refused@.take(refused@.len() as int) =~= refused@);
    while i > 0
        invariant
            i <= refused@.len(),
            refusals(refused@).contains_key((summary, bytes@)) == refusals(
                refused@.take(i as int),
            ).contains_key((summary, bytes@)),
            refusals(refused@).contains_key((summary, bytes@)) ==> refusals(refused@)[(
                summary,
                bytes@,
            )] == refusals(refused@.take(i as int))[(summary, bytes@)],
        decreases i,
    {
        let last = &refused[i - 1];
        assert(refused@.take(i as int).drop_last() =~= refused@.take(i - 1));
        if last.summary == summary && same_bytes(&last.bytes, bytes) {
            return Some(last.error);
        }
        i = i - 1;
    }
    None
}

/// Does any codec refuse a summary of the entry? Then the first that does
/// says why.
fn check_summaries(entry: &SuperfileEntry, refused: &[RefusedSummary]) -> (res: Result<
    (),
    PartParseError,
>)
    ensures
        res is Ok ==> checked_entry(entry@, refusals(refused@)) == Ok::<EntryView, PartFault>(
            entry@,
        ),
        res matches Err(e) ==> checked_entry(entry@, refusals(refused@)) == Err::<
            EntryView,
            PartFault,
        >(e@),
{
    if let Some(e) = refusal(refused, Summary::ScalarStats, &entry.scalar_stats) {
        return Err(PartParseError::SummaryDecode(e));
    }
    if let Some(e) = refusal(refused, Summary::FtsSummary, &entry.fts_summary) {
        return Err(PartParseError::SummaryDecode(e));
    }
    if let Some(e) = refusal(refused, Summary::VectorSummary, &entry.vector_summary) {
        return Err(PartParseError::SummaryDecode(e));
    }
    Ok(())
}

/// Reads one superfile record: its fields, and after them what the codecs say
/// of its summaries.
pub fn decode_superfile(value: AvroValue, refused: &[RefusedSummary]) -> (res: Result<
    SuperfileEntry,
    PartParseError,
>)
    ensures
        res matches Ok(entry) ==> entry_of(value.node(), refusals(refused@)) == Ok::<
            EntryView,
            PartFault,
        >(entry@),
        res matches Err(e) ==> entry_of(value.node(), refusals(refused@)) == Err::<
            EntryView,
            PartFault,
        >(e@),
{
    let entry = read_superfile(value)?;
    check_summaries(&entry, refused)?;
    Ok(entry)
}

/// Once the first `j` rows fail to read, so do all of them.
proof fn lemma_entries_fault(rows: Seq<AvroNode>, refusals: Refusals, j: int)
    requires
        0 <= j <= rows.len(),
        entries_of(rows.take(j), refusals) is Err,
    ensures
        entries_of(rows, refusals) == entries_of(rows.take(j), refusals),
    decreases rows.len(),
{
    if j == rows.len() {
        assert(rows.take(j) =~= rows);
    } else {
        assert(rows.drop_last().take(j) =~= rows.take(j));
        lemma_entries_fault(rows.drop_last(), refusals, j);
    }
}

/// The rows over sequences.
spec fn row_nodes(rows: Seq<AvroValue>) -> Seq<AvroNode> {
    Seq::new(rows.len(), |i: int| rows[i].node())
}

/// Reads the superfile records, in order.
fn decode_superfiles(rows: Vec<AvroValue>, refused: &[RefusedSummary]) -> (res: Result<
    Vec<Arc<SuperfileEntry>>,
    PartParseError,
>)
    ensures
        res matches Ok(entries) ==> entries_of(row_nodes(rows@), refusals(refused@)) == Ok::<
            Seq<EntryView>,
            PartFault,
        >(entries_view(entries@)),
        res matches Err(e) ==> entries_of(row_nodes(rows@), refusals(refused@)) == Err::<
            Seq<EntryView>,
            PartFault,
        >(e@),
{
    let ghost nodes = row_nodes(rows@);
    let mut superfiles: Vec<Arc<SuperfileEntry>> = Vec::new();
    assert(entries_view(superfiles@) =~= Seq::<EntryView>::empty());
    for row in it: rows
        invariant
            nodes == row_nodes(it.seq()),
            entries_of(nodes.take(it.index() as int), refusals(refused@)) == Ok::<
                Seq<EntryView>,
                PartFault,
            >(entries_view(superfiles@)),
    {
        let ghost i = it.index() as int;
        proof {
            assert(nodes.take(i + 1).drop_last() =~= nodes.take(i));
            assert(nodes.take(i + 1).last() == row.node());
        }
        match decode_superfile(row, refused) {
            Ok(entry) => {
                let ghost before = superfiles@;
                superfiles.push(Arc::new(entry));
                assert(entries_view(superfiles@) =~= entries_view(before).push(entry@));
            },
            Err(e) => {
                proof {
                    lemma_entries_fault(nodes, refusals(refused@), i + 1);
                }
                return Err(e);
            },
        }
    }
    assert(nodes.take(nodes.len() as int) =~= nodes);
    Ok(superfiles)
}

/// Reads the record of a part as far as its superfile records.
fn read_header(value: AvroValue) -> (res: Result<(String, u128, Vec<AvroValue>), PartParseError>)
    ensures
        res matches Ok(header) ==> header_of(value.node()) == Ok::<
            (Seq<char>, u128, Seq<AvroNode>),
            PartFault,
        >((header.0@, header.1, row_nodes(header.2@))),
        res matches Err(e) ==> header_of(value.node()) == Err::<
            (Seq<char>, u128, Seq<AvroNode>),
            PartFault,
        >(e@),
{
    let mut map = match value {
        AvroValue::Record(fields) => fields,
        _ => {
            return Err(PartParseError::SchemaMismatch("top-level not a record".to_owned()));
        },
    };
    proof {
        lemma_part_names_differ();
        assert(value.node() == AvroNode::Record(field_nodes(map@))) by {
            assert(value.node()->Record_0 =~= field_nodes(map@));
        }
    }
    let format_version = take_string(&mut map, "format_version")?;
    check_major(&format_version)?;
    let part_id = take_uuid(&mut map, "part_id")?;
    match take_field(&mut map, "superfiles") {
        None => Err(PartParseError::MissingField("superfiles")),
        Some(AvroValue::Array(rows)) => {
            assert(AvroValue::Array(rows).node() == AvroNode::Array(row_nodes(rows@))) by {
                assert(AvroValue::Array(rows).node()->Array_0 =~= row_nodes(rows@));
            }
            Ok((format_version, part_id, rows))
        },
        Some(_) => Err(PartParseError::WrongFieldType("superfiles")),
    }
}

/// Reads the record of a part: what follows decompression and the datum
/// codec.
pub fn decode_record(value: AvroValue, refused: &[RefusedSummary]) -> (res: Result<
    ManifestPart,
    PartParseError,
>)
    ensures
        res matches Ok(part) ==> part_of_node(value.node(), refusals(refused@)) == Ok::<
            PartView,
            PartFault,
        >(part@),
        res matches Err(e) ==> part_of_node(value.node(), refusals(refused@)) == Err::<
            PartView,
            PartFault,
        >(e@),
{
    let (format_version, part_id, rows) = read_header(value)?;
    let superfiles = decode_superfiles(rows, refused)?;
    Ok(ManifestPart { format_version, part_id: PartId(part_id), superfiles })
}

/// Decompresses a part and reads its datum.
fn read_node(bytes: &[u8]) -> (res: Result<AvroValue, PartParseError>)
    ensures
        res matches Ok(value) ==> node_of(bytes@) == Ok::<AvroNode, PartFault>(value.node()),
        res matches Err(e) ==> node_of(bytes@) == Err::<AvroNode, PartFault>(e@),
{
    let datum = match decompress(bytes) {
        Ok(datum) => datum,
        Err(reason) => {
            return Err(PartParseError::Zstd(reason));
        },
    };
    match read_datum(PART_SCHEMA, &datum) {
        Ok(value) => Ok(value),
        Err(reason) => Err(PartParseError::Avro(reason)),
    }
}

/// Reads a part from its compressed bytes.
///
/// The major version must be that of [`FORMAT_VERSION`]; minor versions may
/// differ. `refused` are the summaries, of those that [`carried_summaries`]
/// finds, that their codecs refuse: the first of them in the part is its
/// error.
pub fn decode(bytes: &[u8], refused: &[RefusedSummary]) -> (res: Result<
    ManifestPart,
    PartParseError,
>)
    ensures
        res matches Ok(part) ==> part_of(bytes@, refusals(refused@)) == Ok::<PartView, PartFault>(
            part@,
        ),
        res matches Err(e) ==> part_of(bytes@, refusals(refused@)) == Err::<PartView, PartFault>(
            e@,
        ),
{
    decode_record(read_node(bytes)?, refused)
}

/// Summaries over sequences.
pub open spec fn summaries_view(summaries: Seq<(Summary, Vec<u8>)>) -> Seq<(Summary, Seq<u8>)> {
    summaries.map_values(|s: (Summary, Vec<u8>)| (s.0, s.1@))
}

/// Once a record does not read, no later one counts.
proof fn lemma_raw_entries_end(rows: Seq<AvroNode>, j: int)
    requires
        0 <= j < rows.len(),
        raw_entry_of(rows[j]) is Err,
    ensures
        raw_entries(rows) == raw_entries(rows.take(j)),
        raw_entries(rows).len() < rows.len(),
    decreases rows.len(),
{
    let rest = rows.drop_last();
    if j < rest.len() {
        assert(rest[j] == rows[j]);
        assert(rest.take(j) =~= rows.take(j));
        lemma_raw_entries_end(rest, j);
    } else {
        assert(rest =~= rows.take(j));
        lemma_raw_entries_len(rest);
    }
}

proof fn lemma_raw_entries_len(rows: Seq<AvroNode>)
    ensures
        raw_entries(rows).len() <= rows.len(),
    decreases rows.len(),
{
    if rows.len() > 0 {
        lemma_raw_entries_len(rows.drop_last());
    }
}

/// The summaries that a part carries, for their codecs to read: those of the
/// superfile records up to the first that does not read.
pub fn carried_summaries(bytes: &[u8]) -> (found: Vec<(Summary, Vec<u8>)>)
    ensures
        summaries_view(found@) == summaries_in(bytes@),
{
    let mut found: Vec<(Summary, Vec<u8>)> = Vec::new();
    assert(summaries_view(found@) =~= Seq::<(Summary, Seq<u8>)>::empty());
    let value = match read_node(bytes) {
        Ok(value) => value,
        Err(_) => {
            return found;
        },
    };
    let rows = match read_header(value) {
        Ok((_, _, rows)) => rows,
        Err(_) => {
            return found;
        },
    };
    let ghost nodes = row_nodes(rows@);
    for row in it: rows
        invariant
            nodes == row_nodes(it.seq()),
            summaries_in(bytes@) == summaries_of(raw_entries(nodes)),
            raw_entries(nodes.take(it.index() as int)).len() == it.index(),
            summaries_view(found@) == summaries_of(raw_entries(nodes.take(it.index() as int))),
    {
        let ghost i = it.index() as int;
        proof {
            assert(nodes.take(i + 1).drop_last() =~= nodes.take(i));
            assert(nodes.take(i + 1).last() == row.node());
            assert(nodes[i] == row.node());
        }
        match read_superfile(row) {
            Ok(entry) => {
                let ghost before = found@;
                let ghost read = raw_entries(nodes.take(i));
                found.push((Summary::ScalarStats, entry.scalar_stats));
                found.push((Summary::FtsSummary, entry.fts_summary));
                found.push((Summary::VectorSummary, entry.vector_summary));
                proof {
                    assert(read.push(entry@).drop_last() =~= read);
                    assert(summaries_view(found@) =~= summaries_view(before) + seq![
                        (Summary::ScalarStats, entry@.scalar_stats),
                        (Summary::FtsSummary, entry@.fts_summary),
                        (Summary::VectorSummary, entry@.vector_summary),
                    ]);
                }
            },
            Err(_) => {
                proof {
                    lemma_raw_entries_end(nodes, i);
                }
                return found;
            },
        }
    }
    assert(nodes.take(nodes.len() as int) =~= nodes);
    found
}

/// Reading records and then their summaries is reading both in turn, where
/// all records read.
proof fn lemma_entries_are_checked(rows: Seq<AvroNode>, refusals: Refusals)
    ensures
        entries_of(rows, Map::empty()) matches Ok(entries) ==> entries_of(rows, refusals)
            == checked_entries(entries, refusals),
        entries_of(rows, refusals) is Ok ==> entries_of(rows, Map::empty()) == entries_of(
            rows,
            refusals,
        ),
    decreases rows.len(),
{
    if rows.len() > 0 {
        lemma_entries_are_checked(rows.drop_last(), refusals);
        if let Ok(entries) = entries_of(rows, Map::empty()) {
            let rest = entries_of(rows.drop_last(), Map::empty())->Ok_0;
            assert(entries.drop_last() =~= rest);
            lemma_checked_entries_are_unchanged(rest, refusals);
        }
    }
}

proof fn lemma_checked_entries_are_unchanged(entries: Seq<EntryView>, refusals: Refusals)
    ensures
        checked_entries(entries, refusals) matches Ok(same) ==> same == entries,
{
}

/// Where the codecs refuse nothing, every part is as it is.
pub proof fn lemma_nothing_refused(part: PartView)
    ensures
        checked_part(part, Map::empty()) == Ok::<PartView, PartFault>(part),
{
    lemma_no_entry_refused(part.superfiles);
}

proof fn lemma_no_entry_refused(entries: Seq<EntryView>)
    ensures
        checked_entries(entries, Map::empty()) == Ok::<Seq<EntryView>, PartFault>(entries),
    decreases entries.len(),
{
    if entries.len() > 0 {
        lemma_no_entry_refused(entries.drop_last());
    }
}

/// A part that reads without its summaries fails with the first that a codec
/// refuses; where none is refused it reads as the same part.
pub proof fn lemma_part_is_checked(bytes: Seq<u8>, refusals: Refusals)
    ensures
        part_of(bytes, Map::empty()) matches Ok(part) ==> part_of(bytes, refusals)
            == checked_part(part, refusals),
        part_of(bytes, refusals) is Ok ==> part_of(bytes, Map::empty()) == part_of(
            bytes,
            refusals,
        ),
{
    if let Ok(node) = node_of(bytes) {
        if let Ok((_, _, rows)) = header_of(node) {
            lemma_entries_are_checked(rows, refusals);
        }
    }
}

/// Do the two say the same of these summaries?
pub open spec fn agree_on(summaries: Seq<(Summary, Seq<u8>)>, a: Refusals, b: Refusals) -> bool {
    forall|i: int|
        0 <= i < summaries.len() ==> a.contains_key(#[trigger] summaries[i]) == b.contains_key(
            summaries[i],
        ) && (a.contains_key(summaries[i]) ==> a[summaries[i]] == b[summaries[i]])
}

proof fn lemma_only_read_summaries_count(rows: Seq<AvroNode>, a: Refusals, b: Refusals)
    requires
        agree_on(summaries_of(raw_entries(rows)), a, b),
    ensures
        entries_of(rows, a) == entries_of(rows, b),
        entries_of(rows, a) is Ok ==> raw_entries(rows).len() == rows.len(),
    decreases rows.len(),
{
    if rows.len() > 0 {
        let rest = rows.drop_last();
        let all = summaries_of(raw_entries(rows));
        let some = summaries_of(raw_entries(rest));
        if raw_entries(rows) != raw_entries(rest) {
            assert(raw_entries(rows).drop_last() =~= raw_entries(rest));
        }
        assert forall|i: int| 0 <= i < some.len() implies some[i] == #[trigger] all[i] by {
        }
        assert forall|i: int| 0 <= i < some.len() implies a.contains_key(#[trigger] some[i])
            == b.contains_key(some[i]) && (a.contains_key(some[i]) ==> a[some[i]] == b[some[i]]) by {
            assert(some[i] == all[i]);
        }
        lemma_only_read_summaries_count(rest, a, b);
        if entries_of(rest, a) is Ok {
            if let Ok(entry) = raw_entry_of(rows.last()) {
                let n = some.len() as int;
                assert(all[n] == (Summary::ScalarStats, entry.scalar_stats));
                assert(all[n + 1] == (Summary::FtsSummary, entry.fts_summary));
                assert(all[n + 2] == (Summary::VectorSummary, entry.vector_summary));
            }
        }
    }
}

/// Decoding asks the codecs about no summaries but those that the bytes carry.
pub proof fn lemma_only_carried_summaries_count(bytes: Seq<u8>, a: Refusals, b: Refusals)
    requires
        agree_on(summaries_in(bytes), a, b),
    ensures
        part_of(bytes, a) == part_of(bytes, b),
{
    if let Ok(node) = node_of(bytes) {
        if let Ok((_, _, rows)) = header_of(node) {
            lemma_only_read_summaries_count(rows, a, b);
        }
    }
}

// ---- Encoding ---------------------------------------------------------------

/// A text field.
pub open spec fn text_node(name: Seq<char>, text: Seq<char>) -> (Seq<char>, AvroNode) {
    (name, AvroNode::Text(text))
}

/// A bytes field.
pub open spec fn bytes_node(name: Seq<char>, bytes: Seq<u8>) -> (Seq<char>, AvroNode) {
    (name, AvroNode::Binary(bytes))
}

/// An identifier field.
pub open spec fn id_node(name: Seq<char>, id: i128) -> (Seq<char>, AvroNode) {
    (name, AvroNode::Fixed(ID_COLUMN_FIXED_BYTES, be_bytes((id as u128) as nat, 16)))
}

/// The optional number of an entry.
pub open spec fn hint_node(hint: Option<u32>) -> AvroNode {
    match hint {
        Some(v) => AvroNode::Union(AVRO_UNION_VALUE_INDEX, Box::new(AvroNode::Int(v as i32))),
        None => AvroNode::Union(AVRO_UNION_NULL_INDEX, Box::new(AvroNode::Null)),
    }
}

/// The optional packed offsets of an entry.
pub open spec fn offsets_node(offsets: Option<OffsetsView>) -> AvroNode {
    match offsets {
        Some(off) => AvroNode::Union(
            AVRO_UNION_VALUE_INDEX,
            Box::new(AvroNode::Binary(offsets_bytes(off))),
        ),
        None => AvroNode::Union(AVRO_UNION_NULL_INDEX, Box::new(AvroNode::Null)),
    }
}

/// The fields of a superfile record.
pub open spec fn entry_fields(entry: EntryView) -> Seq<(Seq<char>, AvroNode)> {
    seq![
        text_node("superfile_id"@, uuid_chars(entry.superfile_id)),
        text_node("uri"@, uuid_chars(entry.uri)),
        ("n_docs"@, AvroNode::Long(entry.n_docs as i64)),
        id_node("id_min"@, entry.id_min),
        id_node("id_max"@, entry.id_max),
        bytes_node("partition_key"@, entry.partition_key),
        ("partition_hint"@, hint_node(entry.partition_hint)),
        bytes_node("scalar_stats"@, entry.scalar_stats),
        bytes_node("fts_summary"@, entry.fts_summary),
        bytes_node("vector_summary"@, entry.vector_summary),
        ("subsection_offsets"@, offsets_node(entry.subsection_offsets)),
    ]
}

/// The superfile records of entries.
pub open spec fn entry_nodes(entries: Seq<EntryView>) -> Seq<AvroNode> {
    Seq::new(entries.len(), |i: int| AvroNode::Record(entry_fields(entries[i])))
}

/// The record of a part.
pub open spec fn part_node(part: PartView) -> AvroNode {
    AvroNode::Record(
        seq![
            text_node("format_version"@, part.format_version),
            text_node("part_id"@, uuid_chars(part.part_id)),
            ("superfiles"@, AvroNode::Array(entry_nodes(part.superfiles))),
        ],
    )
}

/// A text field, executable.
fn text_value(name: &str, text: String) -> (res: (String, AvroValue))
    ensures
        (res.0@, res.1.node()) == text_node(name@, text@),
{
    (name.to_owned(), AvroValue::Text(text))
}

/// A bytes field, executable.
fn bytes_value(name: &str, bytes: Vec<u8>) -> (res: (String, AvroValue))
    ensures
        (res.0@, res.1.node()) == bytes_node(name@, bytes@),
{
    (name.to_owned(), AvroValue::Binary(bytes))
}

/// An identifier field, executable.
fn id_value(name: &str, id: i128) -> (res: (String, AvroValue))
    ensures
        (res.0@, res.1.node()) == id_node(name@, id),
{
    let mut bytes: Vec<u8> = Vec::new();
    push_be(&mut bytes, id as u128, 16);
    assert(bytes@ =~= be_bytes((id as u128) as nat, 16));
    (name.to_owned(), AvroValue::Fixed(ID_COLUMN_FIXED_BYTES, bytes))
}

/// A copy of bytes.
fn copy_bytes(bytes: &Vec<u8>) -> (copy: Vec<u8>)
    ensures
        copy@ == bytes@,
{
    vstd::slice::slice_to_vec(bytes.as_slice())
}

/// The superfile record of `entry`. The identifiers in it read back.
fn entry_value(entry: &SuperfileEntry) -> (res: AvroValue)
    ensures
        res.node() == AvroNode::Record(entry_fields(entry@)),
        uuid_of(uuid_chars(entry.superfile_id)) == Ok::<u128, Seq<char>>(entry.superfile_id),
        uuid_of(uuid_chars(entry.uri.0)) == Ok::<u128, Seq<char>>(entry.uri.0),
{
    proof {
        reveal_with_fuel(AvroValue::node, 3);
    }
    let hint = match entry.partition_hint {
        Some(v) => AvroValue::Union(AVRO_UNION_VALUE_INDEX, Box::new(AvroValue::Int(v as i32))),
        None => AvroValue::Union(AVRO_UNION_NULL_INDEX, Box::new(AvroValue::Null)),
    };
    let offsets = match &entry.subsection_offsets {
        Some(off) => AvroValue::Union(
            AVRO_UNION_VALUE_INDEX,
            Box::new(AvroValue::Binary(encode_subsection_offsets(off))),
        ),
        None => AvroValue::Union(AVRO_UNION_NULL_INDEX, Box::new(AvroValue::Null)),
    };
    let mut fields: Vec<(String, AvroValue)> = Vec::new();
    fields.push(text_value("superfile_id", uuid_text(entry.superfile_id)));
    fields.push(text_value("uri", uuid_text(entry.uri.0)));
    fields.push(("n_docs".to_owned(), AvroValue::Long(entry.n_docs as i64)));
    fields.push(id_value("id_min", entry.id_min));
    fields.push(id_value("id_max", entry.id_max));
    fields.push(bytes_value("partition_key", copy_bytes(&entry.partition_key)));
    fields.push(("partition_hint".to_owned(), hint));
    fields.push(bytes_value("scalar_stats", copy_bytes(&entry.scalar_stats)));
    fields.push(bytes_value("fts_summary", copy_bytes(&entry.fts_summary)));
    fields.push(bytes_value("vector_summary", copy_bytes(&entry.vector_summary)));
    fields.push(("subsection_offsets".to_owned(), offsets));
    let res = AvroValue::Record(fields);
    assert(res.node()->Record_0 =~= entry_fields(entry@));
    res
}

/// Does decoding give the entry back: do its offsets fit the packed form?
pub open spec fn entry_is_readable(entry: EntryView) -> bool {
    entry.subsection_offsets matches Some(off) ==> fits_packed_form(off)
}

/// Does decoding give the part back: is its version one that is read, do the
/// offsets fit the packed form, and the fields the datum reader's limits?
pub open spec fn part_is_readable(part: PartView) -> bool {
    &&& is_supported(part.format_version)
    &&& part_fits(part_node(part))
    &&& forall|i: int|
        0 <= i < part.superfiles.len() ==> entry_is_readable(#[trigger] part.superfiles[i])
}

/// Do the identifiers of an entry read back from their hyphenated form?
spec fn entry_ids_read_back(entry: EntryView) -> bool {
    &&& uuid_of(uuid_chars(entry.superfile_id)) == Ok::<u128, Seq<char>>(entry.superfile_id)
    &&& uuid_of(uuid_chars(entry.uri)) == Ok::<u128, Seq<char>>(entry.uri)
}

proof fn lemma_id_reads_back(map: Map<Seq<char>, AvroNode>, name: Seq<char>, id: i128)
    requires
        map.contains_key(name),
        map[name] == id_node(name, id).1,
    ensures
        id_field(map, name) == Ok::<i128, PartFault>(id),
{
    lemma_byte_spans();
    lemma_be_reads_back((id as u128) as nat, 16);
    assert((id as u128) as i128 == id) by (bit_vector);
}

/// A superfile record reads as the entry it was made of.
#[verifier::spinoff_prover]
#[verifier::rlimit(60)]
proof fn lemma_entry_reads_back(entry: EntryView)
    requires
        entry_ids_read_back(entry),
        entry_is_readable(entry),
    ensures
        raw_entry_of(AvroNode::Record(entry_fields(entry))) == Ok::<EntryView, PartFault>(entry),
{
    let f = entry_fields(entry);
    let m = fields_map(f);
    lemma_superfile_names_differ();
    lemma_last_field(f, 0);
    lemma_last_field(f, 1);
    lemma_last_field(f, 2);
    lemma_last_field(f, 3);
    lemma_last_field(f, 4);
    lemma_last_field(f, 5);
    lemma_last_field(f, 6);
    lemma_last_field(f, 7);
    lemma_last_field(f, 8);
    lemma_last_field(f, 9);
    lemma_last_field(f, 10);
    lemma_id_reads_back(m, "id_min"@, entry.id_min);
    lemma_id_reads_back(m, "id_max"@, entry.id_max);
    let n = entry.n_docs;
    assert((n as i64) as u64 == n) by (bit_vector);
    if let Some(hint) = entry.partition_hint {
        assert((hint as i32) as u32 == hint) by (bit_vector);
    }
    if let Some(off) = entry.subsection_offsets {
        lemma_offsets_read_back(off);
    }
}

/// Superfile records read as the entries they were made of.
proof fn lemma_entries_read_back(entries: Seq<EntryView>)
    requires
        forall|i: int|
            0 <= i < entries.len() ==> entry_is_readable(#[trigger] entries[i])
                && entry_ids_read_back(entries[i]),
    ensures
        entries_of(entry_nodes(entries), Map::empty()) == Ok::<Seq<EntryView>, PartFault>(entries),
    decreases entries.len(),
{
    if entries.len() == 0 {
        assert(entries =~= Seq::<EntryView>::empty());
    } else {
        let first = entries.drop_last();
        assert forall|i: int| 0 <= i < first.len() implies entry_is_readable(#[trigger] first[i])
            && entry_ids_read_back(first[i]) by {
            assert(first[i] == entries[i]);
        }
        lemma_entries_read_back(first);
        lemma_entry_reads_back(entries.last());
        assert(entry_nodes(entries).drop_last() =~= entry_nodes(first));
        assert(first.push(entries.last()) =~= entries);
    }
}

/// The record of a part has the fields of the schema.
proof fn lemma_part_node_shape(part: PartView)
    ensures
        is_part_node(part_node(part)),
{
    let rows = entry_nodes(part.superfiles);
    assert forall|i: int| 0 <= i < rows.len() implies is_superfile_node(#[trigger] rows[i]) by {
        let entry = part.superfiles[i];
        crate::numbers::lemma_be_len((entry.id_min as u128) as nat, 16);
        crate::numbers::lemma_be_len((entry.id_max as u128) as nat, 16);
    }
}

/// The record of a part reads as the part.
proof fn lemma_record_reads_back(part: PartView)
    requires
        part_is_readable(part),
        uuid_of(uuid_chars(part.part_id)) == Ok::<u128, Seq<char>>(part.part_id),
        forall|i: int|
            0 <= i < part.superfiles.len() ==> entry_ids_read_back(#[trigger] part.superfiles[i]),
    ensures
        part_of_node(part_node(part), Map::empty()) == Ok::<PartView, PartFault>(part),
{
    let f = part_node(part)->Record_0;
    lemma_part_names_differ();
    lemma_last_field(f, 0);
    lemma_last_field(f, 1);
    lemma_last_field(f, 2);
    lemma_entries_read_back(part.superfiles);
}

/// The record of a part of another major version is refused.
proof fn lemma_record_is_refused(part: PartView)
    requires
        !is_supported(part.format_version),
    ensures
        header_of(part_node(part)) == Err::<(Seq<char>, u128, Seq<AvroNode>), PartFault>(
            version_fault(part.format_version),
        ),
{
    lemma_part_names_differ();
    lemma_last_field(part_node(part)->Record_0, 0);
}

/// Writes a part: its record as a datum, in a zstd frame of the given level.
///
/// The same part gives the same bytes, so an unchanged part keeps its
/// digest. [`decode`] reads every readable part back as it was, unless a codec
/// refuses one of its summaries.
pub fn encode(part: &ManifestPart, zstd_level: i32) -> (out: Vec<u8>)
    ensures
        out@ == zstd_frame(avro_datum_bytes(PART_SCHEMA@, part_node(part@)), zstd_level as int),
        zstd_content(out@) == Ok::<Seq<u8>, Seq<char>>(
            avro_datum_bytes(PART_SCHEMA@, part_node(part@)),
        ),
        forall|refusals: Refusals|
            part_is_readable(part@) ==> #[trigger] part_of(out@, refusals) == checked_part(
                part@,
                refusals,
            ),
        forall|refusals: Refusals|
            part_fits(part_node(part@)) && !is_supported(part@.format_version) ==> #[trigger]
                part_of(out@, refusals) == Err::<PartView, PartFault>(
                    version_fault(part@.format_version),
                ),
{
    let ghost view = part@;
    let mut rows: Vec<AvroValue> = Vec::new();
    let mut i: usize = 0;
    while i < part.superfiles.len()
        invariant
            i <= part.superfiles@.len(),
            view == part@,
            rows@.len() == i,
            forall|k: int|
                0 <= k < i ==> (#[trigger] rows@[k]).node() == AvroNode::Record(
                    entry_fields(view.superfiles[k]),
                ),
            forall|k: int| 0 <= k < i ==> entry_ids_read_back(#[trigger] view.superfiles[k]),
        decreases part.superfiles.len() - i,
    {
        rows.push(entry_value(&part.superfiles[i]));
        i = i + 1;
    }
    let ghost nodes = row_nodes(rows@);
    let array = AvroValue::Array(rows);
    proof {
        assert(nodes =~= entry_nodes(view.superfiles));
        assert(array.node()->Array_0 =~= nodes);
    }
    let mut fields: Vec<(String, AvroValue)> = Vec::new();
    fields.push(text_value("format_version", part.format_version.clone()));
    fields.push(text_value("part_id", uuid_text(part.part_id.0)));
    fields.push(("superfiles".to_owned(), array));
    let record = AvroValue::Record(fields);
    proof {
        assert(record.node()->Record_0 =~= part_node(view)->Record_0);
        lemma_part_node_shape(view);
        if part_is_readable(view) {
            lemma_record_reads_back(view);
        }
        if !is_supported(view.format_version) {
            lemma_record_is_refused(view);
        }
    }
    let datum = write_datum(PART_SCHEMA, record);
    let out = compress(&datum, zstd_level);
    proof {
        if part_is_readable(view) {
            assert(part_of(out@, Map::empty()) == Ok::<PartView, PartFault>(view));
            assert forall|refusals: Refusals| #[trigger]
                part_of(out@, refusals) == checked_part(view, refusals) by {
                lemma_part_is_checked(out@, refusals);
            }
        }
    }
    out
}

// ---- What is read of a part -------------------------------------------------

/// Exactly the versions are read whose first dot, if there is one, stands
/// behind a single `1`.
pub proof fn lemma_supported_versions(version: &str, res: Result<(), PartParseError>)
    requires
        call_ensures(check_major, (version,), res),
    ensures
        res is Ok <==> version@.len() >= 1 && version@[0] == '1' && (version@.len() == 1
            || version@[1] == '.'),
        res matches Err(e) ==> e is IncompatibleMajorVersion,
{
    let v = version@;
    let major = before_dot(v);
    if v.len() >= 1 && v[0] == '1' && (v.len() == 1 || v[1] == '.') {
        lemma_before_dot(v, 1);
        assert(v.take(1) =~= seq!['1']);
    } else if major == seq!['1'] {
        assert(major[0] == '1');
        if v.len() > 0 && v[0] != '.' {
            let rest = v.subrange(1, v.len() as int);
            assert(major == seq![v[0]] + before_dot(rest));
            assert(before_dot(rest).len() == 0);
            if v.len() > 1 {
                assert(rest[0] == v[1]);
                assert(rest[0] == '.');
            }
        }
    }
}

/// A field is found by its name, and of several with the name the last counts.
pub proof fn lemma_fields_by_name(fields: Seq<(Seq<char>, AvroNode)>, name: Seq<char>)
    ensures
        fields_map(fields).contains_key(name) <==> exists|i: int|
            0 <= i < fields.len() && (#[trigger] fields[i]).0 == name,
        forall|i: int|
            0 <= i < fields.len() && (#[trigger] fields[i]).0 == name && (forall|k: int|
                i < k < fields.len() ==> (#[trigger] fields[k]).0 != name) ==> fields_map(
                fields,
            )[name] == fields[i].1,
    decreases fields.len(),
{
    if fields.len() > 0 {
        let rest = fields.drop_last();
        let last = fields.len() - 1;
        lemma_fields_by_name(rest, name);
        if fields_map(rest).contains_key(name) {
            let i = choose|i: int| 0 <= i < rest.len() && (#[trigger] rest[i]).0 == name;
            assert(fields[i].0 == name);
        }
        if fields[last].0 != name && exists|i: int|
            0 <= i < fields.len() && (#[trigger] fields[i]).0 == name {
            let i = choose|i: int| 0 <= i < fields.len() && (#[trigger] fields[i]).0 == name;
            assert(rest[i].0 == name);
        }
        assert forall|i: int|
            0 <= i < fields.len() && (#[trigger] fields[i]).0 == name && (forall|k: int|
                i < k < fields.len() ==> (#[trigger] fields[k]).0 != name) implies fields_map(
            fields,
        )[name] == fields[i].1 by {
            lemma_last_field(fields, i);
        }
    }
}

/// A text field is read exactly if the last field with its name is a text, and
/// is that text.
pub proof fn lemma_text_is_taken(
    fields: &mut Vec<(String, AvroValue)>,
    name: &'static str,
    res: Result<String, PartParseError>,
    i: int,
)
    requires
        call_ensures(take_string, (fields, name), res),
        0 <= i < old(fields)@.len(),
        old(fields)@[i].0@ == name@,
        forall|k: int| i < k < old(fields)@.len() ==> (#[trigger] old(fields)@[k]).0@ != name@,
    ensures
        match old(fields)@[i].1 {
            AvroValue::Text(text) => res is Ok && res->Ok_0@ == text@,
            _ => res is Err && res->Err_0 is WrongFieldType,
        },
{
    let nodes = field_nodes(old(fields)@);
    assert forall|k: int| i < k < nodes.len() implies (#[trigger] nodes[k]).0 != nodes[i].0 by {
        assert(old(fields)@[k].0@ != name@);
    }
    lemma_last_field(nodes, i);
    assert(nodes[i].0 == name@);
}

/// A number field is read exactly if the last field with its name is a number,
/// and is that number.
pub proof fn lemma_long_is_taken(
    fields: &mut Vec<(String, AvroValue)>,
    name: &'static str,
    res: Result<i64, PartParseError>,
    i: int,
)
    requires
        call_ensures(take_long, (fields, name), res),
        0 <= i < old(fields)@.len(),
        old(fields)@[i].0@ == name@,
        forall|k: int| i < k < old(fields)@.len() ==> (#[trigger] old(fields)@[k]).0@ != name@,
    ensures
        match old(fields)@[i].1 {
            AvroValue::Long(v) => res == Ok::<i64, PartParseError>(v),
            _ => res is Err && res->Err_0 is WrongFieldType,
        },
{
    let nodes = field_nodes(old(fields)@);
    assert forall|k: int| i < k < nodes.len() implies (#[trigger] nodes[k]).0 != nodes[i].0 by {
        assert(old(fields)@[k].0@ != name@);
    }
    lemma_last_field(nodes, i);
    assert(nodes[i].0 == name@);
}

/// A bytes field is read exactly if the last field with its name is bytes, and
/// is those bytes.
pub proof fn lemma_bytes_are_taken(
    fields: &mut Vec<(String, AvroValue)>,
    name: &'static str,
    res: Result<Vec<u8>, PartParseError>,
    i: int,
)
    requires
        call_ensures(take_bytes, (fields, name), res),
        0 <= i < old(fields)@.len(),
        old(fields)@[i].0@ == name@,
        forall|k: int| i < k < old(fields)@.len() ==> (#[trigger] old(fields)@[k]).0@ != name@,
    ensures
        match old(fields)@[i].1 {
            AvroValue::Binary(bytes) => res is Ok && res->Ok_0@ == bytes@,
            _ => res is Err && res->Err_0 is WrongFieldType,
        },
{
    let nodes = field_nodes(old(fields)@);
    assert forall|k: int| i < k < nodes.len() implies (#[trigger] nodes[k]).0 != nodes[i].0 by {
        assert(old(fields)@[k].0@ != name@);
    }
    lemma_last_field(nodes, i);
    assert(nodes[i].0 == name@);
}

/// A record of a superfile is read exactly if each of its fields is there with
/// its type, and the offsets unpack if there are any; the entry then has what
/// the fields say.
pub proof fn lemma_entry_is_what_its_fields_say(map: Map<Seq<char>, AvroNode>, entry: EntryView)
    ensures
        entry_of_fields(map) == Ok::<EntryView, PartFault>(entry) <==> {
            &&& map.contains_key("superfile_id"@)
            &&& map["superfile_id"@] is Text
            &&& uuid_of(map["superfile_id"@]->Text_0) == Ok::<u128, Seq<char>>(entry.superfile_id)
            &&& map.contains_key("uri"@)
            &&& map["uri"@] is Text
            &&& uuid_of(map["uri"@]->Text_0) == Ok::<u128, Seq<char>>(entry.uri)
            &&& map.contains_key("n_docs"@)
            &&& map["n_docs"@] is Long
            &&& entry.n_docs == map["n_docs"@]->Long_0 as u64
            &&& map.contains_key("id_min"@)
            &&& map["id_min"@] is Fixed
            &&& map["id_min"@]->Fixed_0 == 16
            &&& map["id_min"@]->Fixed_1.len() == 16
            &&& entry.id_min == (be_value(map["id_min"@]->Fixed_1) as u128) as i128
            &&& map.contains_key("id_max"@)
            &&& map["id_max"@] is Fixed
            &&& map["id_max"@]->Fixed_0 == 16
            &&& map["id_max"@]->Fixed_1.len() == 16
            &&& entry.id_max == (be_value(map["id_max"@]->Fixed_1) as u128) as i128
            &&& map.contains_key("partition_key"@)
            &&& map["partition_key"@] == AvroNode::Binary(entry.partition_key)
            &&& map.contains_key("partition_hint"@)
            &&& match entry.partition_hint {
                None => map["partition_hint"@] is Null || (map["partition_hint"@] is Union
                    && *map["partition_hint"@]->Union_1 is Null),
                Some(hint) => (map["partition_hint"@] is Int && map["partition_hint"@]->Int_0 as u32
                    == hint) || (map["partition_hint"@] is Union
                    && *map["partition_hint"@]->Union_1 is Int
                    && (*map["partition_hint"@]->Union_1)->Int_0 as u32 == hint),
            }
            &&& map.contains_key("scalar_stats"@)
            &&& map["scalar_stats"@] == AvroNode::Binary(entry.scalar_stats)
            &&& map.contains_key("fts_summary"@)
            &&& map["fts_summary"@] == AvroNode::Binary(entry.fts_summary)
            &&& map.contains_key("vector_summary"@)
            &&& map["vector_summary"@] == AvroNode::Binary(entry.vector_summary)
            &&& match entry.subsection_offsets {
                None => !map.contains_key("subsection_offsets"@) || map["subsection_offsets"@]
                    is Null || (map["subsection_offsets"@] is Union
                    && *map["subsection_offsets"@]->Union_1 is Null),
                Some(off) => map.contains_key("subsection_offsets"@) && ((
                map["subsection_offsets"@] is Binary && offsets_of(
                    map["subsection_offsets"@]->Binary_0,
                ) == Ok::<OffsetsView, PartFault>(off)) || (map["subsection_offsets"@] is Union
                    && *map["subsection_offsets"@]->Union_1 is Binary && offsets_of(
                    (*map["subsection_offsets"@]->Union_1)->Binary_0,
                ) == Ok::<OffsetsView, PartFault>(off))),
            }
        },
{
}

/// Records of superfiles are read exactly if each of them is, and give its
/// entries in their order; otherwise the first that is not says why.
pub proof fn lemma_entries_in_order(rows: Seq<AvroNode>, refusals: Refusals)
    ensures
        match entries_of(rows, refusals) {
            Ok(entries) => entries.len() == rows.len() && forall|i: int|
                0 <= i < rows.len() ==> entry_of(#[trigger] rows[i], refusals) == Ok::<
                    EntryView,
                    PartFault,
                >(entries[i]),
            Err(fault) => exists|i: int|
                0 <= i < rows.len() && entry_of(#[trigger] rows[i], refusals) == Err::<
                    EntryView,
                    PartFault,
                >(fault) && forall|j: int|
                    0 <= j < i ==> entry_of(#[trigger] rows[j], refusals) is Ok,
        },
    decreases rows.len(),
{
    if rows.len() > 0 {
        let rest = rows.drop_last();
        let last = rows.len() - 1;
        lemma_entries_in_order(rest, refusals);
        assert(forall|i: int| 0 <= i < last ==> #[trigger] rest[i] == rows[i]);
        match entries_of(rest, refusals) {
            Err(fault) => {
                let i = choose|i: int|
                    0 <= i < rest.len() && entry_of(#[trigger] rest[i], refusals) == Err::<
                        EntryView,
                        PartFault,
                    >(fault) && forall|j: int|
                        0 <= j < i ==> entry_of(#[trigger] rest[j], refusals) is Ok;
                assert(entry_of(rows[i], refusals) == Err::<EntryView, PartFault>(fault));
                assert forall|j: int| 0 <= j < i implies entry_of(#[trigger] rows[j], refusals)
                    is Ok by {
                    assert(rest[j] == rows[j]);
                }
            },
            Ok(entries) => {
                assert forall|j: int| 0 <= j < last implies entry_of(#[trigger] rows[j], refusals)
                    == Ok::<EntryView, PartFault>(entries[j]) by {
                    assert(rest[j] == rows[j]);
                }
                assert(rows[last] == rows.last());
            },
        }
    }
}

/// A record of a part is read exactly if its version is read, its identifier is
/// a UUID, and its superfiles are an array of records that read. The part then
/// has what they say.
pub proof fn lemma_part_is_what_its_record_says(
    fields: Seq<(Seq<char>, AvroNode)>,
    refusals: Refusals,
)
    ensures
        ({
            let map = fields_map(fields);
            let read = part_of_node(AvroNode::Record(fields), refusals);
            let rows = map["superfiles"@]->Array_0;
            &&& read is Ok <==> {
                &&& map.contains_key("format_version"@)
                &&& map["format_version"@] is Text
                &&& is_supported(map["format_version"@]->Text_0)
                &&& map.contains_key("part_id"@)
                &&& map["part_id"@] is Text
                &&& uuid_of(map["part_id"@]->Text_0) is Ok
                &&& map.contains_key("superfiles"@)
                &&& map["superfiles"@] is Array
                &&& forall|i: int|
                    0 <= i < rows.len() ==> entry_of(#[trigger] rows[i], refusals) is Ok
            }
            &&& read matches Ok(part) ==> part.format_version == map["format_version"@]->Text_0
                && Ok::<u128, Seq<char>>(part.part_id) == uuid_of(map["part_id"@]->Text_0)
                && part.superfiles.len() == rows.len() && forall|i: int|
                0 <= i < rows.len() ==> entry_of(#[trigger] rows[i], refusals) == Ok::<
                    EntryView,
                    PartFault,
                >(part.superfiles[i])
        }),
{
    lemma_entries_in_order(fields_map(fields)["superfiles"@]->Array_0, refusals);
}

/// An entry is refused exactly if a codec refuses one of its summaries, with
/// the error of that codec, and of several that of the scalar statistics
/// before that of the text summary before that of the vector summary.
pub proof fn lemma_refused_entries(entry: EntryView, refusals: Refusals)
    ensures
        ({
            let scalar = (Summary::ScalarStats, entry.scalar_stats);
            let fts = (Summary::FtsSummary, entry.fts_summary);
            let vector = (Summary::VectorSummary, entry.vector_summary);
            let read = checked_entry(entry, refusals);
            &&& read is Ok <==> !refusals.dom().contains(scalar) && !refusals.dom().contains(fts)
                && !refusals.dom().contains(vector)
            &&& read matches Ok(same) ==> same == entry
            &&& refusals.dom().contains(scalar) ==> read == Err::<EntryView, PartFault>(
                PartFault::SummaryDecode(refusals[scalar]),
            )
            &&& !refusals.dom().contains(scalar) && refusals.dom().contains(fts) ==> read == Err::<
                EntryView,
                PartFault,
            >(PartFault::SummaryDecode(refusals[fts]))
            &&& !refusals.dom().contains(scalar) && !refusals.dom().contains(fts)
                && refusals.dom().contains(vector) ==> read == Err::<EntryView, PartFault>(
                PartFault::SummaryDecode(refusals[vector]),
            )
        }),
{
}

/// Bytes of a summary are refused with the last error that is listed for them.
pub proof fn lemma_listed_refusal_counts(refused: Seq<RefusedSummary>, i: int)
    requires
        0 <= i < refused.len(),
        forall|k: int|
            i < k < refused.len() ==> (#[trigger] refused[k]).summary != refused[i].summary
                || refused[k].bytes@ != refused[i].bytes@,
    ensures
        refusals(refused).contains_key((refused[i].summary, refused[i].bytes@)),
        refusals(refused)[(refused[i].summary, refused[i].bytes@)] == refused[i].error,
    decreases refused.len(),
{
    let last = refused.len() - 1;
    assert(refused[last] == refused.last());
    if i < last {
        let rest = refused.drop_last();
        assert(rest[i] == refused[i]);
        assert forall|k: int| i < k < rest.len() implies (#[trigger] rest[k]).summary
            != rest[i].summary || rest[k].bytes@ != rest[i].bytes@ by {
            assert(rest[k] == refused[k]);
        }
        lemma_listed_refusal_counts(rest, i);
    }
}

/// Bytes of a summary that no listed refusal names are not refused.
pub proof fn lemma_unlisted_is_not_refused(
    refused: Seq<RefusedSummary>,
    summary: Summary,
    bytes: Seq<u8>,
)
    requires
        forall|k: int|
            0 <= k < refused.len() ==> (#[trigger] refused[k]).summary != summary
                || refused[k].bytes@ != bytes,
    ensures
        !refusals(refused).contains_key((summary, bytes)),
    decreases refused.len(),
{
    if refused.len() > 0 {
        let rest = refused.drop_last();
        assert(refused[refused.len() - 1] == refused.last());
        assert forall|k: int| 0 <= k < rest.len() implies (#[trigger] rest[k]).summary != summary
            || rest[k].bytes@ != bytes by {
            assert(rest[k] == refused[k]);
        }
        lemma_unlisted_is_not_refused(rest, summary, bytes);
    }
}

/// Every readable part that is written is read again as it was, and is written
/// as the same bytes whenever it is written at the same level.
pub proof fn lemma_written_parts_read_back(
    part: ManifestPart,
    zstd_level: i32,
    out: Vec<u8>,
    again: Vec<u8>,
    bytes: &[u8],
    res: Result<ManifestPart, PartParseError>,
    none: &[RefusedSummary],
)
    requires
        call_ensures(encode, (&part, zstd_level), out),
        call_ensures(encode, (&part, zstd_level), again),
        bytes@ == out@,
        none@.len() == 0,
        call_ensures(decode, (bytes, none), res),
        part_is_readable(part@),
    ensures
        again@ == out@,
        res matches Ok(found) && found@ == part@,
{
    lemma_nothing_refused(part@);
    assert(refusals(none@) == Map::<(Summary, Seq<u8>), DecodeError>::empty());
}

/// A part can be read again if its version is one that is read, and nothing in
/// it is larger than the datum reader takes or the packed offsets can count.
pub proof fn lemma_which_parts_are_readable(part: PartView)
    requires
        part.format_version.len() >= 1,
        part.format_version[0] == '1',
        part.format_version.len() == 1 || part.format_version[1] == '.',
        vstd::utf8::encode_utf8(part.format_version).len() <= DATUM_BYTES_MAX,
        vstd::utf8::encode_utf8(uuid_chars(part.part_id)).len() <= DATUM_BYTES_MAX,
        part.superfiles.len() <= DATUM_ROWS_MAX,
        forall|i: int|
            0 <= i < part.superfiles.len() ==> {
                let e = #[trigger] part.superfiles[i];
                &&& vstd::utf8::encode_utf8(uuid_chars(e.superfile_id)).len() <= DATUM_BYTES_MAX
                &&& vstd::utf8::encode_utf8(uuid_chars(e.uri)).len() <= DATUM_BYTES_MAX
                &&& e.partition_key.len() <= DATUM_BYTES_MAX
                &&& e.scalar_stats.len() <= DATUM_BYTES_MAX
                &&& e.fts_summary.len() <= DATUM_BYTES_MAX
                &&& e.vector_summary.len() <= DATUM_BYTES_MAX
                &&& e.subsection_offsets matches Some(off) ==> {
                    &&& offsets_bytes(off).len() <= DATUM_BYTES_MAX
                    &&& off.vec_open_ranges.len() <= u32::MAX
                    &&& off.fts_open_ranges.len() <= u32::MAX
                    &&& off.open_blob.len() <= u32::MAX
                    &&& forall|k: int|
                        0 <= k < off.open_blob.len() ==> (#[trigger] off.open_blob[k]).1.len()
                            <= u32::MAX
                }
            },
    ensures
        part_is_readable(part),
{
    lemma_supported_major();
    lemma_before_dot(part.format_version, 1);
    assert(part.format_version.take(1) =~= seq!['1']);
    let rows = entry_nodes(part.superfiles);
    assert forall|i: int| 0 <= i < rows.len() implies row_fits(#[trigger] rows[i]) by {
        let e = part.superfiles[i];
        let f = entry_fields(e);
        assert(rows[i] == AvroNode::Record(f));
        assert forall|k: int| 0 <= k < f.len() implies leaf_fits((#[trigger] f[k]).1) by {
        }
    }
    assert forall|i: int| 0 <= i < part.superfiles.len() implies entry_is_readable(
        #[trigger] part.superfiles[i],
    ) by {
    }
}

proof fn lemma_raw_entries_of_read(rows: Seq<AvroNode>)
    ensures
        entries_of(rows, Map::empty()) matches Ok(entries) ==> raw_entries(rows) == entries,
    decreases rows.len(),
{
    if rows.len() > 0 {
        lemma_raw_entries_of_read(rows.drop_last());
        lemma_entries_in_order(rows, Map::empty());
        lemma_entries_in_order(rows.drop_last(), Map::empty());
    }
}

proof fn lemma_summaries_at(entries: Seq<EntryView>, i: int)
    requires
        0 <= i < entries.len(),
    ensures
        summaries_of(entries).len() == 3 * entries.len(),
        summaries_of(entries)[3 * i] == (Summary::ScalarStats, entries[i].scalar_stats),
        summaries_of(entries)[3 * i + 1] == (Summary::FtsSummary, entries[i].fts_summary),
        summaries_of(entries)[3 * i + 2] == (Summary::VectorSummary, entries[i].vector_summary),
    decreases entries.len(),
{
    let rest = entries.drop_last();
    if rest.len() > 0 {
        if i < rest.len() {
            lemma_summaries_at(rest, i);
            assert(rest[i] == entries[i]);
        } else {
            lemma_summaries_at(rest, 0);
        }
    } else {
        assert(summaries_of(rest).len() == 0);
    }
}

/// The summaries that a readable part carries are those of its superfiles, in
/// their order: of each the scalar statistics, the text summary and the vector
/// summary.
pub proof fn lemma_carried_summaries(bytes: &[u8], found: Vec<(Summary, Vec<u8>)>, i: int)
    requires
        call_ensures(carried_summaries, (bytes,), found),
        part_of(bytes@, Map::empty()) is Ok,
        0 <= i < part_of(bytes@, Map::empty())->Ok_0.superfiles.len(),
    ensures
        ({
            let superfiles = part_of(bytes@, Map::empty())->Ok_0.superfiles;
            &&& found@.len() == 3 * superfiles.len()
            &&& found@[3 * i].0 == Summary::ScalarStats && found@[3 * i].1@
                == superfiles[i].scalar_stats
            &&& found@[3 * i + 1].0 == Summary::FtsSummary && found@[3 * i + 1].1@
                == superfiles[i].fts_summary
            &&& found@[3 * i + 2].0 == Summary::VectorSummary && found@[3 * i + 2].1@
                == superfiles[i].vector_summary
        }),
{
    let superfiles = part_of(bytes@, Map::empty())->Ok_0.superfiles;
    let node = node_of(bytes@)->Ok_0;
    let header = header_of(node)->Ok_0;
    lemma_raw_entries_of_read(header.2);
    lemma_summaries_at(superfiles, i);
    let view = summaries_view(found@);
    assert(view == summaries_of(superfiles));
    assert(view.len() == found@.len());
    assert(view[3 * i] == (found@[3 * i].0, found@[3 * i].1@));
    assert(view[3 * i + 1] == (found@[3 * i + 1].0, found@[3 * i + 1].1@));
    assert(view[3 * i + 2] == (found@[3 * i + 2].0, found@[3 * i + 2].1@));
}

/// A digest has 64 lower-case digits, two for each byte; and digits are read as
/// the digest exactly if they are 64, of either case.
pub proof fn lemma_digest_digits(
    hash: ContentHash,
    text: String,
    hex_text: &str,
    res: Option<ContentHash>,
)
    requires
        call_ensures(ContentHash::to_hex, (&hash,), text),
        call_ensures(ContentHash::from_hex, (hex_text,), res),
    ensures
        text@.len() == 64,
        res is Some <==> hex_text@.len() == 64 && forall|i: int|
            0 <= i < hex_text@.len() ==> hex_value(#[trigger] hex_text@[i]) is Some,
        hex_text@ == text@ ==> res is Some && res->0@ == hash@,
        res matches Some(found) ==> forall|i: int|
            0 <= i < 32 ==> #[trigger] found@[i] as int == 16 * hex_value(hex_text@[2 * i])->0
                + hex_value(hex_text@[2 * i + 1])->0,
{
    assert(hash@.len() == 32);
    crate::text::lemma_hex_reads_back(hash@);
}

/// Entries that look the same have the same fields.
pub proof fn lemma_entries_are_their_fields(a: SuperfileEntry, b: SuperfileEntry)
    requires
        a@ == b@,
    ensures
        a.superfile_id == b.superfile_id,
        a.uri.0 == b.uri.0,
        a.n_docs == b.n_docs,
        a.id_min == b.id_min,
        a.id_max == b.id_max,
        a.scalar_stats@ == b.scalar_stats@,
        a.fts_summary@ == b.fts_summary@,
        a.vector_summary@ == b.vector_summary@,
        a.partition_key@ == b.partition_key@,
        a.partition_hint == b.partition_hint,
        a.subsection_offsets is Some == b.subsection_offsets is Some,
        a.subsection_offsets matches Some(off) ==> off@ == b.subsection_offsets->0@,
        a@.n_docs == a.n_docs,
        a@.uri == a.uri.0,
        a@.superfile_id == a.superfile_id,
{
}

/// Parts that look the same have the same version, identifier and superfiles.
pub proof fn lemma_parts_are_their_fields(a: ManifestPart, b: ManifestPart, i: int)
    requires
        a@ == b@,
    ensures
        a.format_version@ == b.format_version@,
        a.part_id.0 == b.part_id.0,
        a.superfiles@.len() == b.superfiles@.len(),
        0 <= i < a.superfiles@.len() ==> a.superfiles@[i]@ == b.superfiles@[i]@,
{
    assert(entries_view(a.superfiles@).len() == entries_view(b.superfiles@).len());
    if 0 <= i < a.superfiles@.len() {
        assert(entries_view(a.superfiles@)[i] == a.superfiles@[i]@);
        assert(entries_view(b.superfiles@)[i] == b.superfiles@[i]@);
    }
}

} // verus!
