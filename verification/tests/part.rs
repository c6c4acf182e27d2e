use std::sync::Arc;
use apache_avro::types::Value;
use bytes::Bytes;
use infino::supertable::manifest::avro::{
    AvroValue, AVRO_UNION_NULL_INDEX, AVRO_UNION_VALUE_INDEX, ID_COLUMN_FIXED_BYTES, PART_SCHEMA,
};
use infino::supertable::manifest::error::{DecodeError, PartParseError};
use infino::supertable::manifest::offsets::{
    decode_subsection_offsets, encode_subsection_offsets, SubsectionOffsets,
    SUBSECTION_FLAG_ABSENT, SUBSECTION_OFFSETS_VERSION_CURRENT, SUBSECTION_OFFSETS_VERSION_LEGACY,
};
use infino::supertable::manifest::part::{
    carried_summaries, check_major, decode, decode_record, decode_superfile, encode, take_bytes,
    take_i128_be, take_long, take_optional_bytes, take_optional_int, take_string, ContentHash,
    ManifestPart, PartId, RefusedSummary, Summary, SuperfileEntry, SuperfileUri,
    BLAKE3_DIGEST_BYTES, BLAKE3_HEX_LEN, FORMAT_VERSION,
};
use uuid::Uuid;

type Fields = Vec<(String, AvroValue)>;

fn fields(name: &str, value: AvroValue) -> Fields {
    vec![(name.to_string(), value)]
}

fn fresh_superfile(n_docs: u64) -> Arc<SuperfileEntry> {
    let id = Uuid::new_v4().as_u128();
    Arc::new(SuperfileEntry {
        superfile_id: id,
        uri: SuperfileUri(id),
        n_docs,
        id_min: 0,
        id_max: n_docs.saturating_sub(1) as i128,
        scalar_stats: Vec::new(),
        fts_summary: Vec::new(),
        vector_summary: Vec::new(),
        partition_key: Vec::new(),
        partition_hint: None,
        subsection_offsets: None,
    })
}

fn fresh_part(superfiles: Vec<Arc<SuperfileEntry>>) -> ManifestPart {
    ManifestPart { format_version: FORMAT_VERSION.into(), part_id: PartId::new_v4(), superfiles }
}

fn make_rich_superfile() -> Arc<SuperfileEntry> {
    let id = Uuid::new_v4().as_u128();
    let centroid: Vec<u8> = (0..8u32).flat_map(|i| (0.5f32 + i as f32 * 0.001).to_le_bytes()).collect();
    Arc::new(SuperfileEntry {
        superfile_id: id,
        uri: SuperfileUri(id),
        n_docs: 12_345,
        id_min: 1_000,
        id_max: 13_344,
        scalar_stats: b"ts:1715000000..1715086400".to_vec(),
        fts_summary: b"title:alpha..zulu".to_vec(),
        vector_summary: centroid,
        partition_key: vec![0x42, 0x00, 0x00, 0x00, 0x00, 0x00, 0x00, 0x00],
        partition_hint: Some(13),
        subsection_offsets: Some(SubsectionOffsets {
            total_size: 12_345_678,
            vec: Some((123_456, 78_910)),
            fts: Some((11_111, 22_222)),
            vec_open_ranges: vec![(123_456, 96), (200_000, 4096)],
            fts_open_ranges: vec![(11_111, 1024), (30_000, 2048)],
            open_blob: vec![(12_345_614, vec![0xAB; 64]), (123_456, vec![0xCD; 96])],
        }),
    })
}

fn assert_superfiles_equal(a: &SuperfileEntry, b: &SuperfileEntry) {
    assert_eq!(a.superfile_id, b.superfile_id, "superfile_id");
    assert_eq!(a.uri, b.uri, "uri");
    assert_eq!(a.n_docs, b.n_docs, "n_docs");
    assert_eq!(a.id_min, b.id_min, "id_min");
    assert_eq!(a.id_max, b.id_max, "id_max");
    assert_eq!(a.partition_key, b.partition_key, "partition_key");
    assert_eq!(a.partition_hint, b.partition_hint, "partition_hint");
    assert_eq!(a.scalar_stats, b.scalar_stats, "scalar_stats");
    assert_eq!(a.fts_summary, b.fts_summary, "fts_summary");
    assert_eq!(a.vector_summary, b.vector_summary, "vector_summary");
    assert_eq!(a.subsection_offsets, b.subsection_offsets, "subsection_offsets");
}

#[test]
fn empty_part_roundtrip() {
    let part = fresh_part(vec![]);
    let bytes = encode(&part, 3);
    let decoded = decode(&bytes, &[]).expect("decode empty");
    assert_eq!(decoded.format_version, FORMAT_VERSION);
    assert_eq!(decoded.part_id, part.part_id);
    assert_eq!(decoded.superfiles.len(), 0);
}

#[test]
fn single_minimal_superfile_roundtrip() {
    let part = fresh_part(vec![fresh_superfile(100)]);
    let bytes = encode(&part, 3);
    let decoded = decode(&bytes, &[]).expect("decode minimal");
    assert_eq!(decoded.superfiles.len(), 1);
    assert_superfiles_equal(&decoded.superfiles[0], &part.superfiles[0]);
}

#[test]
fn multi_superfile_with_full_summaries_roundtrip() {
    let superfiles: Vec<Arc<SuperfileEntry>> = (0..5).map(|_| make_rich_superfile()).collect();
    let part = fresh_part(superfiles);
    let bytes = encode(&part, 3);
    let decoded = decode(&bytes, &[]).expect("decode rich");
    assert_eq!(decoded.superfiles.len(), 5);
    for (a, b) in decoded.superfiles.iter().zip(part.superfiles.iter()) {
        assert_superfiles_equal(a, b);
    }
}

#[test]
fn content_hash_covers_all_bytes() {
    let part = fresh_part(vec![make_rich_superfile()]);
    let bytes = encode(&part, 3);
    let hash = ContentHash::of(&bytes);

    let mut tampered = bytes.clone();
    let mid = tampered.len() / 2;
    tampered[mid] ^= 0xff;
    let tampered_hash = ContentHash::of(&tampered);
    assert_ne!(hash, tampered_hash, "blake3 must change when any byte changes");
}

#[test]
fn same_logical_content_produces_same_bytes_and_hash() {
    let superfiles = vec![make_rich_superfile(), make_rich_superfile()];
    let part_a = ManifestPart {
        format_version: FORMAT_VERSION.into(),
        part_id: PartId(0),
        superfiles: superfiles.clone(),
    };
    let part_b =
        ManifestPart { format_version: FORMAT_VERSION.into(), part_id: PartId(0), superfiles };

    let bytes_a = encode(&part_a, 3);
    let bytes_b = encode(&part_b, 3);
    assert_eq!(bytes_a, bytes_b, "same logical content → same bytes");
    assert_eq!(
        ContentHash::of(&bytes_a),
        ContentHash::of(&bytes_b),
        "same logical content → same content_hash"
    );
}

#[test]
fn partition_hint_some_and_none_both_roundtrip() {
    let mut seg_with = Arc::try_unwrap(fresh_superfile(1)).expect("only owner");
    seg_with.partition_key = vec![0xab, 0xcd];
    seg_with.partition_hint = Some(0xdead_beef);
    let seg_without = fresh_superfile(1);
    let part = fresh_part(vec![Arc::new(seg_with), seg_without]);
    let bytes = encode(&part, 3);
    let decoded = decode(&bytes, &[]).expect("decode mixed-hint");
    assert_eq!(decoded.superfiles.len(), 2);
    assert_eq!(decoded.superfiles[0].partition_hint, Some(0xdead_beef));
    assert_eq!(decoded.superfiles[0].partition_key, vec![0xab, 0xcd]);
    assert_eq!(decoded.superfiles[1].partition_hint, None);
    assert_eq!(decoded.superfiles[1].partition_key, Vec::<u8>::new());
}

#[test]
fn incompatible_major_version_rejected() {
    let mut part = fresh_part(vec![fresh_superfile(1)]);
    part.format_version = "2.0".into();
    let bytes = encode(&part, 3);
    let err = decode(&bytes, &[]).expect_err("major 2 must reject");
    assert!(
        matches!(err, PartParseError::IncompatibleMajorVersion { .. }),
        "expected IncompatibleMajorVersion, got {err:?}"
    );
}

#[test]
fn minor_version_compatible() {
    let mut part = fresh_part(vec![fresh_superfile(7)]);
    part.format_version = "1.99".into();
    let bytes = encode(&part, 3);
    let decoded = decode(&bytes, &[]).expect("minor 99 must accept");
    assert_eq!(decoded.format_version, "1.99");
    assert_eq!(decoded.superfiles.len(), 1);
}

#[test]
fn zstd_corruption_surfaces_typed_error() {
    let part = fresh_part(vec![fresh_superfile(1)]);
    let mut bytes = encode(&part, 3);
    bytes[0] ^= 0xff;
    bytes[1] ^= 0xff;
    let err = decode(&bytes, &[]).expect_err("corrupt zstd must fail");
    assert!(
        matches!(err, PartParseError::Zstd(_) | PartParseError::Avro(_)),
        "expected Zstd or Avro error, got {err:?}"
    );
}

#[test]
fn bytes_payload_is_well_formed_use_via_bytes_type() {
    let part = fresh_part(vec![make_rich_superfile()]);
    let raw = encode(&part, 3);
    let wrapped = Bytes::from(raw.clone());
    let decoded = decode(&wrapped, &[]).expect("decode from Bytes");
    assert_eq!(decoded.superfiles.len(), 1);
}

#[test]
fn a_damaged_datum_is_an_avro_error() {
    let frame = zstd::encode_all(&[0xffu8; 4][..], 3).expect("zstd");
    let err = decode(&frame, &[]).expect_err("no datum");
    assert!(matches!(err, PartParseError::Avro(_)), "got {err:?}");
}

#[test]
fn content_hash_of_is_deterministic_and_to_hex_is_64_chars() {
    let h = ContentHash::of(b"the quick brown fox");
    let h2 = ContentHash::of(b"the quick brown fox");
    assert_eq!(h, h2, "blake3 is deterministic");
    let hex = h.to_hex();
    assert_eq!(hex.len(), BLAKE3_HEX_LEN);
    assert!(
        hex.chars().all(|c| c.is_ascii_hexdigit() && !c.is_uppercase()),
        "to_hex emits lowercase hex"
    );
    // Different input ⇒ different hash.
    assert_ne!(h, ContentHash::of(b"the quick brown foy"));
}

#[test]
fn content_hash_is_the_blake3_digest_and_reads_back() {
    let h = ContentHash::of(b"");
    assert_eq!(h.to_hex(), "af1349b9f5f9a1a6a0404dea36dcc9499bcb25c9adc112b7cc9a93cae41f3262");
    assert_eq!(h.0.len(), BLAKE3_DIGEST_BYTES);
    assert_eq!(ContentHash::from_hex(&h.to_hex()), Some(h));
    assert_eq!(ContentHash::from_hex("af13"), None);
    assert_eq!(ContentHash::from_hex(&"+f".repeat(32)), None);
    assert_eq!(ContentHash::from_hex(&"AF".repeat(32)), Some(ContentHash([0xaf; 32])));
}

#[test]
fn content_hash_debug_is_truncated_display_is_full() {
    let h = ContentHash::of(b"payload");
    let dbg = h.debug_text();
    let disp = h.display_text();
    // Debug shows a `blake3:<8hex>…` prefix.
    assert!(dbg.starts_with("blake3:"), "got {dbg}");
    assert!(dbg.ends_with('…'), "got {dbg}");
    // 8 hex chars between prefix and ellipsis.
    let body = dbg.trim_start_matches("blake3:").trim_end_matches('…');
    assert_eq!(body.len(), 8);
    // Display shows the full hash.
    assert_eq!(disp, format!("blake3:{}", h.to_hex()));
    assert!(disp.starts_with(&dbg[..dbg.len() - '…'.len_utf8()]));
}

#[test]
fn part_id_new_v4_is_unique_and_display_matches_uuid() {
    let a = PartId::new_v4();
    let b = PartId::new_v4();
    assert_ne!(a, b);
    // Display delegates to the inner UUID.
    assert_eq!(a.display_text(), Uuid::from_u128(a.0).to_string());
    assert_eq!(Uuid::from_u128(a.0).get_version_num(), 4);
}

fn with_offsets(off: &SubsectionOffsets) -> ManifestPart {
    let mut seg = Arc::try_unwrap(fresh_superfile(3)).expect("only owner");
    seg.id_min = -5;
    seg.id_max = 7;
    seg.subsection_offsets = Some(off.clone());
    fresh_part(vec![Arc::new(seg)])
}

#[test]
fn subsection_offsets_present_roundtrip_through_part() {
    let off = SubsectionOffsets {
        total_size: 9_000,
        vec: Some((100, 200)),
        fts: Some((400, 500)),
        vec_open_ranges: vec![(100, 64), (1000, 128)],
        fts_open_ranges: vec![(400, 32)],
        open_blob: vec![(50, vec![1, 2, 3, 4]), (9000, vec![9, 9])],
    };
    let decoded = decode(&encode(&with_offsets(&off), 3), &[]).expect("decode");
    let got = decoded.superfiles[0].subsection_offsets.as_ref().expect("offsets present");
    assert_eq!(*got, off);
    // Signed id range survives big-endian fixed encoding.
    assert_eq!(decoded.superfiles[0].id_min, -5);
    assert_eq!(decoded.superfiles[0].id_max, 7);
}

#[test]
fn subsection_offsets_absent_subsections_roundtrip() {
    let off = SubsectionOffsets {
        total_size: 1,
        vec: None,
        fts: None,
        vec_open_ranges: vec![],
        fts_open_ranges: vec![],
        open_blob: vec![],
    };
    let decoded = decode(&encode(&with_offsets(&off), 3), &[]).expect("decode");
    assert_eq!(*decoded.superfiles[0].subsection_offsets.as_ref().expect("offsets"), off);
}

#[test]
fn encode_decode_subsection_offsets_helpers_directly() {
    let off = SubsectionOffsets {
        total_size: 123,
        vec: Some((1, 2)),
        fts: None,
        vec_open_ranges: vec![(1, 2), (3, 4)],
        fts_open_ranges: vec![],
        open_blob: vec![(7, vec![0xde, 0xad])],
    };
    let bytes = encode_subsection_offsets(&off);
    // First byte is the current version tag.
    assert_eq!(bytes[0], SUBSECTION_OFFSETS_VERSION_CURRENT);
    let decoded = decode_subsection_offsets(&bytes).expect("decode helper");
    assert_eq!(decoded, off);
}

fn empty_offsets(total_size: u64) -> SubsectionOffsets {
    SubsectionOffsets {
        total_size,
        vec: None,
        fts: None,
        vec_open_ranges: vec![],
        fts_open_ranges: vec![],
        open_blob: vec![],
    }
}

#[test]
fn decode_subsection_offsets_rejects_unknown_version() {
    let mut bytes = encode_subsection_offsets(&empty_offsets(0));
    bytes[0] = 99; // not LEGACY (2) nor CURRENT (3)
    let err = decode_subsection_offsets(&bytes).expect_err("unknown version");
    assert!(matches!(err, PartParseError::SchemaMismatch(_)));
}

#[test]
fn decode_subsection_offsets_rejects_truncated_buffer() {
    let mut off = empty_offsets(42);
    off.vec = Some((1, 2));
    let bytes = encode_subsection_offsets(&off);
    // Lop off the tail so a length-prefixed read runs past the end.
    let err = decode_subsection_offsets(&bytes[..3]).expect_err("truncated");
    assert!(matches!(err, PartParseError::SchemaMismatch(_)));
}

#[test]
fn decode_subsection_offsets_rejects_trailing_bytes() {
    let mut bytes = encode_subsection_offsets(&empty_offsets(5));
    bytes.push(0xaa); // extra byte after a complete encoding
    let err = decode_subsection_offsets(&bytes).expect_err("trailing");
    assert!(matches!(err, PartParseError::SchemaMismatch(_)));
}

#[test]
fn legacy_version_two_offsets_decode_without_open_blob() {
    let mut bytes = Vec::new();
    bytes.push(SUBSECTION_OFFSETS_VERSION_LEGACY);
    bytes.extend_from_slice(&777u64.to_le_bytes());
    bytes.push(SUBSECTION_FLAG_ABSENT);
    bytes.push(SUBSECTION_FLAG_ABSENT);
    bytes.extend_from_slice(&0u32.to_le_bytes()); // vec_open_ranges count
    bytes.extend_from_slice(&0u32.to_le_bytes()); // fts_open_ranges count
    let decoded = decode_subsection_offsets(&bytes).expect("legacy decode");
    assert_eq!(decoded.total_size, 777);
    assert!(decoded.open_blob.is_empty());
    assert!(decoded.vec.is_none());
    assert!(decoded.fts.is_none());
}

#[test]
fn check_major_accepts_one_and_rejects_other_majors() {
    assert!(check_major("1.0").is_ok());
    assert!(check_major("1.42").is_ok());
    assert!(matches!(
        check_major("2.0"),
        Err(PartParseError::IncompatibleMajorVersion { .. })
    ));
    assert!(matches!(
        check_major("0.9"),
        Err(PartParseError::IncompatibleMajorVersion { .. })
    ));
}

#[test]
fn take_optional_int_handles_raw_and_union_and_null() {
    // Raw Int (non-union) → Some.
    let mut m = fields("x", AvroValue::Int(5));
    assert_eq!(take_optional_int(&mut m, "x").expect("ok"), Some(5));
    // Raw Null → None.
    let mut m = fields("x", AvroValue::Null);
    assert_eq!(take_optional_int(&mut m, "x").expect("ok"), None);
    // Union(value) → Some.
    let mut m =
        fields("x", AvroValue::Union(AVRO_UNION_VALUE_INDEX, Box::new(AvroValue::Int(9))));
    assert_eq!(take_optional_int(&mut m, "x").expect("ok"), Some(9));
    // Union(null) → None.
    let mut m = fields("x", AvroValue::Union(AVRO_UNION_NULL_INDEX, Box::new(AvroValue::Null)));
    assert_eq!(take_optional_int(&mut m, "x").expect("ok"), None);
    // Wrong type → error.
    let mut m = fields("x", AvroValue::Text("nope".into()));
    assert!(matches!(take_optional_int(&mut m, "x"), Err(PartParseError::WrongFieldType(_))));
    // Missing key → error.
    let mut m: Fields = Vec::new();
    assert!(matches!(take_optional_int(&mut m, "x"), Err(PartParseError::MissingField(_))));
}

#[test]
fn take_optional_bytes_missing_key_defaults_to_none() {
    // Missing key is backward-compatible None (not an error).
    let mut m: Fields = Vec::new();
    assert_eq!(take_optional_bytes(&mut m, "x").expect("ok"), None);
    // Raw bytes → Some.
    let mut m = fields("x", AvroValue::Binary(vec![1, 2, 3]));
    assert_eq!(take_optional_bytes(&mut m, "x").expect("ok"), Some(vec![1, 2, 3]));
    // Wrong inner type → error.
    let mut m = fields("x", AvroValue::Int(1));
    assert!(matches!(take_optional_bytes(&mut m, "x"), Err(PartParseError::WrongFieldType(_))));
}

#[test]
fn take_helpers_surface_typed_errors_on_wrong_or_missing_fields() {
    // take_string: wrong type + missing.
    let mut m = fields("s", AvroValue::Long(1));
    assert!(matches!(take_string(&mut m, "s"), Err(PartParseError::WrongFieldType(_))));
    let mut m: Fields = Vec::new();
    assert!(matches!(take_string(&mut m, "s"), Err(PartParseError::MissingField(_))));
    // take_long: wrong type.
    let mut m = fields("n", AvroValue::Text("x".into()));
    assert!(matches!(take_long(&mut m, "n"), Err(PartParseError::WrongFieldType(_))));
    // take_bytes: wrong type.
    let mut m = fields("b", AvroValue::Long(1));
    assert!(matches!(take_bytes(&mut m, "b"), Err(PartParseError::WrongFieldType(_))));
    // take_i128_be: wrong type + wrong fixed width.
    let mut m = fields("id", AvroValue::Long(1));
    assert!(matches!(take_i128_be(&mut m, "id"), Err(PartParseError::WrongFieldType(_))));
    let mut m = fields("id", AvroValue::Fixed(8, vec![0u8; 8]));
    assert!(matches!(take_i128_be(&mut m, "id"), Err(PartParseError::WrongFieldType(_))));
}

#[test]
fn a_field_is_taken_once() {
    let mut m = fields("s", AvroValue::Text("v".into()));
    assert_eq!(take_string(&mut m, "s").expect("ok"), "v");
    assert!(m.is_empty());
    assert!(matches!(take_string(&mut m, "s"), Err(PartParseError::MissingField("s"))));
}

#[test]
fn decode_superfile_rejects_non_record_value() {
    let err = decode_superfile(AvroValue::Long(7), &[]).expect_err("non-record");
    assert!(matches!(err, PartParseError::SchemaMismatch(_)), "got {err:?}");
}

#[test]
fn decode_superfile_rejects_malformed_superfile_id_uuid() {
    let rec = AvroValue::Record(fields("superfile_id", AvroValue::Text("not-a-uuid".into())));
    let err = decode_superfile(rec, &[]).expect_err("bad uuid");
    assert!(matches!(err, PartParseError::BadSuperfileId(_)), "got {err:?}");
}

#[test]
fn decode_open_blob_rejects_truncated_entry() {
    let mut off = empty_offsets(1);
    off.open_blob = vec![(10, vec![0xAA, 0xBB, 0xCC])];
    let mut bytes = encode_subsection_offsets(&off);
    // Drop the trailing payload bytes so the declared length runs
    // past the end of the buffer.
    bytes.truncate(bytes.len() - 2);
    let err = decode_subsection_offsets(&bytes).expect_err("truncated open_blob");
    assert!(matches!(err, PartParseError::SchemaMismatch(_)), "got {err:?}");
}

#[test]
fn take_i128_be_roundtrips_a_full_width_value() {
    // 16-byte big-endian fixed → i128, including a negative.
    let v: i128 = -123_456_789_012_345;
    let mut m = fields("id", AvroValue::Fixed(ID_COLUMN_FIXED_BYTES, v.to_be_bytes().to_vec()));
    assert_eq!(take_i128_be(&mut m, "id").expect("ok"), v);
}

#[test]
fn part_parse_error_display_covers_each_arm() {
    let zstd = PartParseError::Zstd("frame corrupt".into());
    assert!(zstd.message().contains("zstd decompress failed"));

    let avro = PartParseError::Avro("bad datum".into());
    assert!(avro.message().contains("avro decode failed"));

    let mismatch = PartParseError::SchemaMismatch("top-level not a record".into());
    assert!(mismatch.message().contains("schema mismatch"));

    let bad_id = PartParseError::BadSuperfileId("not-a-uuid".into());
    assert!(bad_id.message().contains("malformed superfile_id uuid"));

    let incompat = PartParseError::IncompatibleMajorVersion {
        got: "2.0".into(),
        supported: FORMAT_VERSION.into(),
    };
    let s = incompat.message();
    assert!(s.contains("incompatible major version") && s.contains("2.0"));

    let missing = PartParseError::MissingField("superfiles");
    assert!(missing.message().contains("missing field: superfiles"));

    let wrong = PartParseError::WrongFieldType("n_docs");
    assert!(wrong.message().contains("wrong avro field type for n_docs"));

    // Debug is derived; just ensure it renders without panicking.
    assert!(!format!("{wrong:?}").is_empty());
}

#[test]
fn summary_decode_error_converts_via_from() {
    let de = DecodeError::Truncated { needed: 8, had: 2, what: "scalar stats" };
    let lifted: PartParseError = de.into();
    assert!(
        matches!(lifted, PartParseError::SummaryDecode(_)),
        "expected SummaryDecode, got {lifted:?}"
    );
    assert!(lifted.message().contains("per-summary decode failed"));
}

#[test]
fn decode_superfile_rejects_malformed_uri_uuid() {
    let rec = AvroValue::Record(vec![
        ("superfile_id".to_string(), AvroValue::Text(Uuid::new_v4().to_string())),
        ("uri".to_string(), AvroValue::Text("not-a-uuid".into())),
    ]);
    let err = decode_superfile(rec, &[]).expect_err("bad uri uuid");
    assert!(matches!(err, PartParseError::BadSuperfileId(_)), "got {err:?}");
}

fn part_record(part_id: &str) -> Value {

    Value::Record(vec![
        ("format_version".to_string(), Value::String(FORMAT_VERSION.to_string())),
        ("part_id".to_string(), Value::String(part_id.to_string())),
        ("superfiles".to_string(), Value::Array(vec![])),
    ])
}

#[test]
#[allow(deprecated)]
fn decode_rejects_malformed_part_id_uuid() {
    let schema = apache_avro::Schema::parse_str(PART_SCHEMA).expect("schema");
    let avro_bytes =
        apache_avro::to_avro_datum(&schema, part_record("not-a-uuid")).expect("avro encode");
    let bytes = zstd::encode_all(avro_bytes.as_slice(), 3).expect("zstd");
    let err = decode(&bytes, &[]).expect_err("bad part_id");
    assert!(matches!(err, PartParseError::BadSuperfileId(_)), "got {err:?}");
}

#[test]
fn a_record_without_superfiles_is_rejected() {
    let rec = AvroValue::Record(vec![
        ("format_version".to_string(), AvroValue::Text(FORMAT_VERSION.to_string())),
        ("part_id".to_string(), AvroValue::Text(PartId(1).display_text())),
    ]);
    let err = decode_record(rec, &[]).expect_err("no superfiles");
    assert!(matches!(err, PartParseError::MissingField("superfiles")), "got {err:?}");
}

#[test]
fn decode_range_list_rejects_truncated_count_prefix() {
    let mut off = empty_offsets(1);
    off.vec_open_ranges = vec![(1, 2)];
    let bytes = encode_subsection_offsets(&off);
    // Header is: ver(1) + total(8) + vec flag(1) + fts flag(1) = 11
    // bytes, then the vec_open_ranges u32 count. Cut into the count.
    let err = decode_subsection_offsets(&bytes[..12]).expect_err("truncated range count");
    assert!(matches!(err, PartParseError::SchemaMismatch(_)), "got {err:?}");
}

#[test]
fn content_hash_of_matches_to_hex_for_known_input() {
    let h = ContentHash::of(b"abc");
    // Reconstruct from the raw bytes and compare.
    let same = ContentHash(h.0);
    assert_eq!(h, same);
    assert_eq!(h.to_hex().len(), BLAKE3_HEX_LEN);
}

fn truncated(summary: Summary, bytes: &[u8], needed: usize) -> RefusedSummary {
    let error = DecodeError::Truncated { needed, had: bytes.len(), what: "summary" };
    RefusedSummary { summary, bytes: bytes.to_vec(), error }
}

fn needed_by(refused: &[RefusedSummary], bytes: &[u8]) -> usize {
    match decode(bytes, refused).expect_err("refused") {
        PartParseError::SummaryDecode(DecodeError::Truncated { needed, .. }) => needed,
        other => panic!("expected SummaryDecode, got {other:?}"),
    }
}

#[test]
fn a_part_with_a_refused_summary_is_rejected() {
    let rich = make_rich_superfile();
    let bytes = encode(&fresh_part(vec![fresh_superfile(1), rich.clone()]), 3);
    let scalar = truncated(Summary::ScalarStats, &rich.scalar_stats, 100);
    let fts = truncated(Summary::FtsSummary, &rich.fts_summary, 200);
    let vector = truncated(Summary::VectorSummary, &rich.vector_summary, 300);

    assert_eq!(needed_by(&[vector.clone()], &bytes), 300);
    assert_eq!(needed_by(&[vector.clone(), fts.clone()], &bytes), 200);
    assert_eq!(needed_by(&[vector.clone(), fts.clone(), scalar], &bytes), 100);
    // The first superfile's summaries come before those of the second.
    let empty = truncated(Summary::VectorSummary, &[], 400);
    assert_eq!(needed_by(&[fts, empty], &bytes), 400);
    // The same bytes under another summary are not refused.
    let elsewhere = truncated(Summary::ScalarStats, &rich.vector_summary, 500);
    assert_eq!(decode(&bytes, &[elsewhere]).expect("decode").superfiles.len(), 2);
}

#[test]
fn fields_are_read_before_summaries() {
    let refused = truncated(Summary::ScalarStats, &[], 8);
    let rec = AvroValue::Record(fields("superfile_id", AvroValue::Text("not-a-uuid".into())));
    let err = decode_superfile(rec, &[refused]).expect_err("bad uuid");
    assert!(matches!(err, PartParseError::BadSuperfileId(_)), "got {err:?}");
}

#[test]
fn the_summaries_of_a_part_are_found_in_its_bytes() {
    let rich = make_rich_superfile();
    let bytes = encode(&fresh_part(vec![fresh_superfile(1), rich.clone()]), 3);
    assert_eq!(
        carried_summaries(&bytes),
        vec![
            (Summary::ScalarStats, Vec::new()),
            (Summary::FtsSummary, Vec::new()),
            (Summary::VectorSummary, Vec::new()),
            (Summary::ScalarStats, rich.scalar_stats.clone()),
            (Summary::FtsSummary, rich.fts_summary.clone()),
            (Summary::VectorSummary, rich.vector_summary.clone()),
        ]
    );
    assert!(carried_summaries(b"no frame").is_empty());
}
