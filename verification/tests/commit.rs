use std::collections::HashMap;
use infino::storage::StorageError;
use infino::supertable::error::CommitError;
use infino::supertable::manifest::commit::{
    commit_manifest, list_uri, part_uri, prepare_manifest_list, prepare_manifest_part,
    prepare_pointer, read_pointer, translate_contention, write_manifest_list, write_manifest_part,
    write_pointer, PointerFile, MANIFEST_LISTS_DIR, MANIFEST_PARTS_DIR, POINTER_PATH,
};
use infino::supertable::manifest::part::{ContentHash, ManifestPart, PartId, FORMAT_VERSION};

/// Objects by URI, with a put that refuses to replace one.
#[derive(Default)]
struct Store {
    objects: HashMap<String, Vec<u8>>,
}

impl Store {
    fn get(&self, uri: &str) -> Result<Vec<u8>, StorageError> {
        match self.objects.get(uri) {
            Some(bytes) => Ok(bytes.clone()),
            None => Err(StorageError::NotFound { uri: uri.to_string() }),
        }
    }

    fn put_atomic(&mut self, uri: &str, bytes: &[u8]) -> Result<(), StorageError> {
        if self.objects.contains_key(uri) {
            return Err(StorageError::PreconditionFailed { uri: uri.to_string() });
        }
        self.objects.insert(uri.to_string(), bytes.to_vec());
        Ok(())
    }
}

// ---- URI helpers -------------------------------------------------------

#[test]
fn list_uri_zero_pads_to_six_digits() {
    assert_eq!(list_uri(0), "manifest-lists/list-000000.json");
    assert_eq!(list_uri(42), "manifest-lists/list-000042.json");
    assert_eq!(list_uri(123_456), "manifest-lists/list-123456.json");
}

#[test]
fn list_uri_overflows_padding_for_large_ids_intentionally() {
    assert_eq!(list_uri(1_000_000), "manifest-lists/list-1000000.json");
}

#[test]
fn list_uris_tell_manifests_apart_and_sort_with_them() {
    let ids: [u64; 6] = [0, 9, 10, 99_999, 100_000, 999_999];
    for pair in ids.windows(2) {
        assert!(list_uri(pair[0]) < list_uri(pair[1]));
    }
    assert_ne!(list_uri(1_000_000), list_uri(100_000));
    // Beyond six digits the order is lost.
    assert!(list_uri(1_000_000) < list_uri(999_999));
}

#[test]
fn a_published_pointer_reads_back() {
    for manifest_id in [0u64, 41, 1_234_567, u64::MAX] {
        let pointer = PointerFile {
            manifest_id,
            manifest_list_uri: list_uri(manifest_id),
            content_hash: ContentHash::of(b"list"),
        };
        assert_eq!(PointerFile::from_bytes(&pointer.to_bytes()).expect("parse"), pointer);
    }
}

#[test]
fn part_uri_uses_content_hash_hex() {
    let h = ContentHash::of(b"hello manifest part");
    let uri_a = part_uri(&h);
    let uri_b = part_uri(&ContentHash::of(b"hello manifest part"));
    assert_eq!(uri_a, uri_b);
    assert!(uri_a.starts_with("manifests/part-"));
    assert!(uri_a.ends_with(".avro.zst"));
    assert_eq!(uri_a, format!("manifests/part-{}.avro.zst", h.to_hex()));
    assert_ne!(uri_a, part_uri(&ContentHash::of(b"another part")));
}

// ---- PointerFile round-trip --------------------------------------------

fn sample_pointer() -> PointerFile {
    let mut bytes = [0u8; 32];
    for (i, b) in bytes.iter_mut().enumerate() {
        *b = i as u8;
    }
    PointerFile {
        manifest_id: 7,
        manifest_list_uri: "manifest-lists/list-000007.json".into(),
        content_hash: ContentHash(bytes),
    }
}

#[test]
fn pointer_file_text_roundtrip() {
    let p = sample_pointer();
    let bytes = p.to_bytes();
    let s = std::str::from_utf8(&bytes).expect("utf-8");
    assert!(s.contains("manifest_id=7"));
    assert!(s.contains("manifest_list_uri=manifest-lists/list-000007.json"));
    assert!(s.contains("content_hash=blake3:"));
    let parsed = PointerFile::from_bytes(&bytes).expect("parse");
    assert_eq!(parsed, p);
}

#[test]
fn pointer_file_from_bytes_skips_blank_lines() {
    let bytes = b"\nmanifest_id=1\n\nmanifest_list_uri=foo.json\ncontent_hash=blake3:0000000000000000000000000000000000000000000000000000000000000000\n";
    let parsed = PointerFile::from_bytes(bytes).expect("parse");
    assert_eq!(parsed.manifest_id, 1);
    assert_eq!(parsed.manifest_list_uri, "foo.json");
    assert_eq!(parsed.content_hash.0, [0u8; 32]);
}

#[test]
fn pointer_file_from_bytes_ignores_unknown_keys() {
    let bytes = b"manifest_id=2\nmanifest_list_uri=x.json\ncontent_hash=blake3:1111111111111111111111111111111111111111111111111111111111111111\nfuture_field=ignored\n";
    let parsed = PointerFile::from_bytes(bytes).expect("parse");
    assert_eq!(parsed.manifest_id, 2);
}

// ---- PointerFile parse errors ------------------------------------------

fn assert_parse_err(bytes: &[u8], needle: &str) {
    let err = PointerFile::from_bytes(bytes).expect_err("must error");
    match err {
        CommitError::PointerParse(msg) => {
            assert!(msg.contains(needle), "expected `{needle}` in error; got: {msg}")
        }
        other => panic!("expected PointerParse; got {other:?}"),
    }
}

#[test]
fn pointer_file_from_bytes_rejects_invalid_utf8() {
    let bytes = [0xff, 0xfe, 0xfd];
    assert_parse_err(&bytes, "not utf-8");
}

#[test]
fn pointer_file_from_bytes_rejects_missing_equals() {
    assert_parse_err(b"manifest_id 1\n", "no '='");
}

#[test]
fn pointer_file_from_bytes_rejects_bad_manifest_id() {
    assert_parse_err(
        b"manifest_id=abc\nmanifest_list_uri=x\ncontent_hash=blake3:0000000000000000000000000000000000000000000000000000000000000000\n",
        "manifest_id",
    );
}

#[test]
fn pointer_file_from_bytes_rejects_content_hash_without_prefix() {
    assert_parse_err(
        b"manifest_id=1\nmanifest_list_uri=x\ncontent_hash=cafebabe\n",
        "blake3:",
    );
}

#[test]
fn pointer_file_from_bytes_rejects_short_hex() {
    assert_parse_err(
        b"manifest_id=1\nmanifest_list_uri=x\ncontent_hash=blake3:dead\n",
        "64 chars",
    );
}

#[test]
fn pointer_file_from_bytes_rejects_bad_hex_chars() {
    let mut hex = String::from("blake3:");
    hex.push_str(&"z".repeat(64));
    let payload = format!("manifest_id=1\nmanifest_list_uri=x\ncontent_hash={hex}\n");
    assert_parse_err(payload.as_bytes(), "content_hash hex");
}

#[test]
fn a_plus_sign_is_no_hex_digit() {
    let payload = format!(
        "manifest_id=1\nmanifest_list_uri=x\ncontent_hash=blake3:{}\n",
        "+0".repeat(32)
    );
    assert_parse_err(payload.as_bytes(), "content_hash hex");
}

#[test]
fn pointer_file_from_bytes_rejects_missing_manifest_id() {
    assert_parse_err(
        b"manifest_list_uri=x\ncontent_hash=blake3:0000000000000000000000000000000000000000000000000000000000000000\n",
        "missing manifest_id",
    );
}

#[test]
fn pointer_file_from_bytes_rejects_missing_list_uri() {
    assert_parse_err(
        b"manifest_id=1\ncontent_hash=blake3:0000000000000000000000000000000000000000000000000000000000000000\n",
        "missing manifest_list_uri",
    );
}

#[test]
fn pointer_file_from_bytes_rejects_missing_content_hash() {
    assert_parse_err(b"manifest_id=1\nmanifest_list_uri=x\n", "missing content_hash");
}

// ---- translate_contention ----------------------------------------------

#[test]
fn translate_contention_maps_precondition_failed() {
    let in_err = CommitError::Storage(StorageError::PreconditionFailed { uri: "x".into() });
    match translate_contention(in_err) {
        CommitError::WriteContentionExhausted => {}
        other => panic!("expected WriteContentionExhausted; got {other:?}"),
    }
}

#[test]
fn translate_contention_passes_through_other_storage_errors() {
    let in_err = CommitError::Encode("downstream zstd".into());
    match translate_contention(in_err) {
        CommitError::Encode(_) => {}
        other => panic!("expected Encode passthrough; got {other:?}"),
    }
}

// ---- reads and writes --------------------------------------------------

#[test]
fn read_pointer_returns_none_when_absent() {
    let storage = Store::default();
    let p = read_pointer(storage.get(POINTER_PATH)).expect("read");
    assert!(p.is_none());
}

#[test]
fn write_pointer_create_then_read_roundtrip() {
    let mut storage = Store::default();
    let p = sample_pointer();
    let write = prepare_pointer(&p, None);
    assert!(write.if_match.is_none());
    write_pointer(storage.put_atomic(write.path, &write.bytes)).expect("write");
    let read = read_pointer(storage.get(POINTER_PATH)).expect("read").expect("present");
    assert_eq!(read, p);
}

#[test]
fn write_pointer_second_create_surfaces_contention() {
    let mut storage = Store::default();
    let write = prepare_pointer(&sample_pointer(), None);
    write_pointer(storage.put_atomic(write.path, &write.bytes)).expect("first");
    let err = write_pointer(storage.put_atomic(write.path, &write.bytes))
        .expect_err("second must lose");
    assert!(matches!(err, CommitError::WriteContentionExhausted), "{err:?}");
}

#[test]
fn write_manifest_list_succeeds_and_addresses_uri() {
    let mut storage = Store::default();
    let json = b"{\"format_version\":\"1.0\",\"manifest_id\":1,\"parts\":[]}";
    let write = prepare_manifest_list(1, json);
    let uri = write.uri.clone();
    let res = write_manifest_list(write, storage.put_atomic(&uri, json)).expect("write");
    assert_eq!(res.uri, list_uri(1));
    assert!(res.size_bytes > 0);
    assert_eq!(res.content_hash, ContentHash::of(json));
    storage.get(&res.uri).expect("get list back");
}

#[test]
fn an_unreadable_pointer_is_an_error() {
    let broken = read_pointer(Ok(b"nonsense".to_vec()));
    assert!(matches!(broken, Err(CommitError::PointerParse(_))));
    let lost = StorageError::Permanent { uri: "u".to_string(), source: "s".to_string() };
    assert_eq!(read_pointer(Err(lost.clone())), Err(CommitError::Storage(lost)));
}

#[test]
fn a_pointer_over_a_known_version_replaces_just_that() {
    let write = prepare_pointer(&sample_pointer(), Some("etag-3".to_string()));
    assert_eq!(write.if_match.as_deref(), Some("etag-3"));
    assert_eq!(write.path, POINTER_PATH);
}

#[test]
fn writing_the_same_part_twice_counts_as_done() {
    let mut storage = Store::default();
    let part = ManifestPart {
        format_version: FORMAT_VERSION.to_string(),
        part_id: PartId(5),
        superfiles: Vec::new(),
    };
    let first = prepare_manifest_part(&part, 3).expect("encode");
    assert_eq!(first.result.uri, part_uri(&ContentHash::of(&first.bytes)));
    assert_eq!(first.result.size_bytes_compressed, first.bytes.len() as u64);
    assert_eq!(
        first.result.size_bytes_uncompressed,
        zstd::decode_all(first.bytes.as_slice()).expect("zstd").len() as u64
    );
    let put = storage.put_atomic(&first.result.uri, &first.bytes);
    assert_eq!(write_manifest_part(first.clone(), put).expect("first").part_id, PartId(5));
    let put = storage.put_atomic(&first.result.uri, &first.bytes);
    assert!(put.is_err());
    assert_eq!(write_manifest_part(first.clone(), put).expect("again").uri, first.result.uri);
    let lost = StorageError::NotFound { uri: "u".to_string() };
    assert!(matches!(
        write_manifest_part(first, Err(lost)),
        Err(CommitError::Storage(StorageError::NotFound { .. }))
    ));
}

#[test]
fn after_a_commit_storage_holds_what_the_pointer_names() {
    let mut storage = Store::default();
    storage.put_atomic("manifests/other", b"other").expect("other");
    let part = ManifestPart {
        format_version: FORMAT_VERSION.to_string(),
        part_id: PartId(5),
        superfiles: Vec::new(),
    };
    let json = b"{\"parts\":[]}";
    let list = prepare_manifest_list(9, json);
    let put = storage.put_atomic(&list.uri, json);
    let list = write_manifest_list(list, put);
    let write = prepare_manifest_part(&part, 3).expect("encode");
    let put = storage.put_atomic(&write.result.uri, &write.bytes);
    let new_part = write.result.uri.clone();
    let parts = vec![write_manifest_part(write, put)];
    let pointer = commit_manifest(9, list, parts).expect("commit");
    let write = prepare_pointer(&pointer, None);
    let put = storage.put_atomic(write.path, &write.bytes);
    write_pointer(put).expect("pointer");

    let read = read_pointer(storage.get(POINTER_PATH)).expect("read").expect("pointer");
    assert_eq!(read, pointer);
    let stored_list = storage.get(&read.manifest_list_uri).expect("list");
    assert_eq!(stored_list, json.to_vec());
    assert_eq!(ContentHash::of(&stored_list), read.content_hash);
    let stored_part = storage.get(&new_part).expect("part");
    assert_eq!(part_uri(&ContentHash::of(&stored_part)), new_part);
    assert_eq!(storage.get("manifests/other").expect("other"), b"other".to_vec());
    assert_eq!(storage.objects.len(), 4);
}

#[test]
fn a_commit_publishes_the_list_unless_a_write_failed() {
    let part = ManifestPart {
        format_version: FORMAT_VERSION.to_string(),
        part_id: PartId(5),
        superfiles: Vec::new(),
    };
    let list = prepare_manifest_list(9, b"{}");
    let written = prepare_manifest_part(&part, 3).expect("encode").result;
    let pointer = commit_manifest(9, Ok(list.clone()), vec![Ok(written.clone())]).expect("commit");
    assert_eq!(pointer.manifest_id, 9);
    assert_eq!(pointer.manifest_list_uri, list_uri(9));
    assert_eq!(pointer.content_hash, list.content_hash);

    let raced = || CommitError::Storage(StorageError::PreconditionFailed { uri: "u".to_string() });
    assert_eq!(
        commit_manifest(9, Err(raced()), Vec::new()),
        Err(CommitError::WriteContentionExhausted)
    );
    let broken = CommitError::Encode("e".to_string());
    assert_eq!(
        commit_manifest(9, Ok(list), vec![Ok(written), Err(broken.clone()), Err(raced())]),
        Err(broken)
    );
}

#[test]
fn point_constants_match_layout_doc() {
    assert_eq!(POINTER_PATH, "_supertable/current");
    assert_eq!(MANIFEST_LISTS_DIR, "manifest-lists");
    assert_eq!(MANIFEST_PARTS_DIR, "manifests");
}
