use std::collections::HashSet;
use std::sync::Arc;
use infino::storage::StorageError;
use infino::supertable::error::{CommitError, OpenError, QueryError};
use infino::supertable::handle::{
    build_tombstone_cache, CacheCounters, CreateStep, ListRequest, Supertable, TableOptions,
    OPEN_NEEDS_STORAGE, REFRESH_NEEDS_STORAGE,
};
use infino::supertable::manifest::commit::{part_uri, PointerFile, POINTER_PATH};
use infino::supertable::manifest::error::DecodeError;
use infino::supertable::manifest::part::{
    encode, ContentHash, ManifestPart, PartId, RefusedSummary, Summary, SuperfileEntry,
    SuperfileUri, FORMAT_VERSION,
};
use infino::supertable::manifest::snapshot::{
    load_part, Fetched, ListedPart, Manifest, ManifestList, PartBytes,
};
use infino::supertable::query::hierarchical_iter::{
    fallback_to_flat_segments, flatten_segments, load_and_flatten, load_kept_parts,
};

fn opts(storage: bool) -> TableOptions {
    TableOptions {
        id_column: "_id".to_string(),
        storage,
        eager_load_threshold_parts: 2,
        memory_budget_bytes: Some(64),
    }
}

fn entry(id: u128, n_docs: u64) -> Arc<SuperfileEntry> {
    Arc::new(SuperfileEntry {
        superfile_id: id,
        uri: SuperfileUri(id),
        n_docs,
        id_min: 0,
        id_max: n_docs.saturating_sub(1) as i128,
        scalar_stats: Vec::new(),
        fts_summary: Vec::new(),
        vector_summary: Vec::new(),
        partition_key: Vec::new(),
        partition_hint: None,
        subsection_offsets: None,
    })
}

fn fresh() -> Supertable {
    match Supertable::create(opts(false), 77, None) {
        Ok(CreateStep::Fresh(table)) => table,
        _ => panic!("expected a fresh table"),
    }
}

fn publish_appended(st: &mut Supertable, entries: Vec<Arc<SuperfileEntry>>) {
    let next = st.reader().manifest().with_appended(&entries);
    st.publish(next);
}

#[test]
fn appended_superfiles_add_their_rows() {
    let first = Manifest::empty().with_appended(&vec![entry(1, 5), entry(2, 7)]);
    assert_eq!(first.n_docs_total(), 12);
    assert_eq!(first.with_appended(&vec![entry(3, 30)]).n_docs_total(), 42);
    assert_eq!(first.with_appended(&Vec::new()).n_docs_total(), 12);
}

#[test]
fn create_returns_handle_with_empty_initial_manifest() {
    let st = fresh();
    assert_eq!(st.manifest_id(), 0);
    let r = st.reader();
    assert_eq!(r.manifest_id(), 0);
    assert_eq!(r.n_superfiles(), 0);
    assert_eq!(r.n_docs_total(), 0);
}

#[test]
fn options_accessor_returns_arc_to_validated_options() {
    let st = fresh();
    assert_eq!(st.options().id_column, "_id");
    assert_eq!(st.handle_id(), 77);
}

#[test]
fn reader_pins_manifest_across_subsequent_commits() {
    let mut st = fresh();

    // Pin reader at manifest_id = 0.
    let pinned = st.reader();
    assert_eq!(pinned.manifest_id(), 0);
    assert_eq!(pinned.n_superfiles(), 0);

    // Publish 2 superfiles → manifest_id = 1.
    publish_appended(&mut st, vec![entry(1, 10), entry(2, 20)]);
    assert_eq!(st.manifest_id(), 1);

    // Pinned reader still sees the OLD manifest.
    assert_eq!(pinned.manifest_id(), 0);
    assert_eq!(pinned.n_superfiles(), 0);

    // Fresh reader sees the NEW manifest.
    let fresh = st.reader();
    assert_eq!(fresh.manifest_id(), 1);
    assert_eq!(fresh.n_superfiles(), 2);
    assert_eq!(fresh.n_docs_total(), 30);
}

#[test]
fn manifest_immutability_property() {
    let mut st = fresh();

    let r0 = st.reader();
    publish_appended(&mut st, vec![entry(1, 1)]);
    let r1 = st.reader();
    publish_appended(&mut st, vec![entry(2, 2)]);
    let r2 = st.reader();
    publish_appended(&mut st, vec![entry(3, 3)]);
    let r3 = st.reader();

    assert_eq!(r0.manifest_id(), 0);
    assert_eq!(r1.manifest_id(), 1);
    assert_eq!(r2.manifest_id(), 2);
    assert_eq!(r3.manifest_id(), 3);

    assert_eq!(r0.n_superfiles(), 0);
    assert_eq!(r1.n_superfiles(), 1);
    assert_eq!(r2.n_superfiles(), 2);
    assert_eq!(r3.n_superfiles(), 3);

    assert_eq!(r0.n_docs_total(), 0);
    assert_eq!(r1.n_docs_total(), 1);
    assert_eq!(r2.n_docs_total(), 1 + 2);
    assert_eq!(r3.n_docs_total(), 1 + 2 + 3);
}

#[test]
fn reader_manifest_arc_outlives_supertable_drop() {
    let r = {
        let mut st = fresh();
        publish_appended(&mut st, vec![entry(1, 5)]);
        st.reader()
        // st dropped here; reader survives.
    };
    assert_eq!(r.manifest_id(), 1);
    assert_eq!(r.n_superfiles(), 1);
    assert_eq!(r.n_docs_total(), 5);
}

#[test]
fn many_concurrent_readers_share_one_manifest() {
    let mut st = fresh();
    publish_appended(&mut st, vec![entry(1, 7)]);
    let r1 = st.reader();
    let r2 = st.reader();
    assert!(Arc::ptr_eq(r1.manifest(), r2.manifest()));
}

#[test]
fn debug_format_doesnt_explode() {
    let st = fresh();
    let s = st.debug_text();
    assert!(s.contains("Supertable"));
    assert_eq!(s, "Supertable { manifest_id: 0, n_superfiles: 0, id_column: \"_id\" }");

    let r = st.reader();
    let s = r.debug_text();
    assert!(s.contains("SupertableReader"));
    assert_eq!(s, "SupertableReader { manifest_id: 0, n_superfiles: 0 }");
}

// ---- create ------------------------------------------------------------

fn pointer(manifest_id: u64) -> PointerFile {
    PointerFile {
        manifest_id,
        manifest_list_uri: format!("list-{manifest_id}"),
        content_hash: ContentHash([0; 32]),
    }
}

#[test]
fn create_does_not_shadow_an_existing_table() {
    assert!(matches!(
        Supertable::create(opts(true), 1, Some(Ok(Some(pointer(4))))),
        Ok(CreateStep::Open)
    ));
    match Supertable::create(opts(true), 1, Some(Ok(None))) {
        Ok(CreateStep::Fresh(table)) => assert_eq!(table.manifest_id(), 0),
        _ => panic!("expected a fresh table"),
    }
    match Supertable::create(opts(true), 1, Some(Err("reset".to_string()))) {
        Err(e) => assert_eq!(
            e,
            OpenError::Storage(StorageError::Permanent {
                uri: POINTER_PATH.to_string(),
                source: "reset".to_string(),
            })
        ),
        Ok(_) => panic!("expected an error"),
    }
}

#[test]
fn only_a_table_with_storage_can_have_deleted_rows_elsewhere() {
    assert!(build_tombstone_cache(&opts(true)).is_some());
    assert!(build_tombstone_cache(&opts(false)).is_none());
}

// ---- open and refresh --------------------------------------------------

fn part(id: u128, superfiles: Vec<Arc<SuperfileEntry>>) -> Arc<ManifestPart> {
    Arc::new(ManifestPart {
        format_version: FORMAT_VERSION.to_string(),
        part_id: PartId(id),
        superfiles,
    })
}

/// A part as storage holds it.
struct Stored {
    listed: ListedPart,
    bytes: Vec<u8>,
}

impl Stored {
    fn fetched(&self) -> Fetched {
        Ok(PartBytes { bytes: self.bytes.clone(), refused: Vec::new() })
    }
}

fn stored(id: u128, superfiles: Vec<Arc<SuperfileEntry>>) -> Stored {
    let bytes = encode(&part(id, superfiles), 3);
    let content_hash = ContentHash::of(&bytes);
    let uri = part_uri(&content_hash);
    Stored { listed: ListedPart { part_id: PartId(id), content_hash, uri }, bytes }
}

fn part_10() -> Stored {
    stored(10, vec![entry(1, 5), entry(2, 6)])
}

fn part_11() -> Stored {
    stored(11, vec![entry(3, 7)])
}

fn part_12() -> Stored {
    stored(12, vec![entry(4, 1)])
}

fn list(parts: &[&Stored]) -> ManifestList {
    ManifestList {
        parts: parts.iter().map(|part| part.listed.clone()).collect(),
        options_hash: ContentHash([0; 32]),
    }
}

fn request(manifest_id: u64) -> ListRequest {
    ListRequest { manifest_id, uri: format!("list-{manifest_id}") }
}

fn opened() -> Supertable {
    let options = opts(true);
    let (ten, eleven) = (part_10(), part_11());
    let listed = list(&[&ten, &eleven]);
    let parts =
        Supertable::open_list(&options, request(3), Ok(Ok(listed)), hash(1)).expect("list");
    assert!(parts.eager);
    assert_eq!(parts.missing, vec![ten.listed.clone(), eleven.listed.clone()]);
    let fetched = vec![ten.fetched(), eleven.fetched()];
    Supertable::open_parts(options, 8, parts, fetched).expect("open")
}

fn hash(byte: u8) -> ContentHash {
    ContentHash([byte; 32])
}

fn uris(st: &Supertable) -> Vec<u128> {
    st.reader().manifest().superfiles.iter().map(|e| e.uri.0).collect()
}

#[test]
fn open_follows_the_pointer() {
    let built = Supertable::open(&opts(false), Ok(Some(pointer(3))));
    assert!(matches!(built, Err(OpenError::Build(text)) if text == OPEN_NEEDS_STORAGE));
    match Supertable::open(&opts(true), Ok(None)) {
        Err(e) => assert_eq!(
            e,
            OpenError::PointerUnreadable(StorageError::NotFound { uri: POINTER_PATH.to_string() })
        ),
        Ok(_) => panic!("expected an error"),
    }
    let broken = CommitError::PointerParse("p".to_string());
    match Supertable::open(&opts(true), Err(broken.clone())) {
        Err(e) => assert_eq!(e, OpenError::Pointer(broken)),
        Ok(_) => panic!("expected an error"),
    }
    let next = Supertable::open(&opts(true), Ok(Some(pointer(3)))).expect("pointer");
    assert_eq!((next.manifest_id, next.uri), (3, "list-3".to_string()));
}

#[test]
fn a_table_opened_eagerly_lists_its_superfiles_in_order() {
    let st = opened();
    assert_eq!(st.manifest_id(), 3);
    assert_eq!(uris(&st), vec![1, 2, 3]);
    assert_eq!(st.reader().n_docs_total(), 18);
    let stats = st.stats(
        Some(9),
        Some(CacheCounters {
            mmap_resident_bytes: 1,
            n_cold_fetches: 2,
            n_evictions: 3,
            n_madvise_calls: 4,
            n_entries: 5,
        }),
    );
    assert_eq!(stats.manifest_id, 3);
    assert_eq!(stats.n_superfiles, 3);
    assert_eq!(stats.n_manifest_parts, Some(2));
    assert_eq!(stats.n_manifest_parts_loaded, 2);
    assert_eq!(stats.process_rss_bytes, Some(9));
    assert_eq!(stats.memory_budget_bytes, Some(64));
    assert_eq!(stats.mmap_resident_bytes, Some(1));
    assert_eq!(stats.n_cold_fetches, Some(2));
    assert_eq!(stats.n_cache_evictions, Some(3));
    assert_eq!(stats.n_cache_madvise_calls, Some(4));
    assert_eq!(stats.n_cache_entries, Some(5));
    assert_eq!(fresh().stats(None, None).n_manifest_parts, None);
    let pinned: HashSet<u128> = st.reader().manifest().pinned_uris();
    assert_eq!(pinned, HashSet::from([1, 2, 3]));
}

#[test]
fn a_long_list_is_loaded_when_it_is_needed() {
    let options = opts(true);
    let st = opened_lazily(options);
    assert_eq!(st.reader().n_superfiles(), 0);
    assert_eq!(st.stats(None, None).n_manifest_parts_loaded, 3);
}

fn opened_lazily(options: TableOptions) -> Supertable {
    let listed = list(&[&part_10(), &part_11(), &part_12()]);
    let parts =
        Supertable::open_list(&options, request(3), Ok(Ok(listed)), hash(1)).expect("list");
    assert!(!parts.eager);
    Supertable::open_parts(options, 8, parts, Vec::new()).expect("open")
}

#[test]
fn open_reports_what_went_wrong() {
    let options = opts(true);
    let lost = StorageError::NotFound { uri: "list-3".to_string() };
    match Supertable::open_list(&options, request(3), Err(lost.clone()), hash(1)) {
        Err(e) => assert_eq!(e, OpenError::Storage(lost)),
        Ok(_) => panic!("expected an error"),
    }
    match Supertable::open_list(&options, request(3), Ok(Err("json".to_string())), hash(1)) {
        Err(e) => assert_eq!(e, OpenError::ManifestListParse("json".to_string())),
        Ok(_) => panic!("expected an error"),
    }
    let mut stamped = list(&[&part_10()]);
    stamped.options_hash = hash(2);
    match Supertable::open_list(&options, request(3), Ok(Ok(stamped)), hash(1)) {
        Err(e) => assert_eq!(
            e,
            OpenError::OptionsHashMismatch { expected: [1; 32], actual: [2; 32] }
        ),
        Ok(_) => panic!("expected an error"),
    }
    let listed = list(&[&part_10(), &part_11()]);
    let parts =
        Supertable::open_list(&options, request(3), Ok(Ok(listed)), hash(1)).expect("list");
    let fetched = vec![part_10().fetched(), Err("gone".to_string())];
    match Supertable::open_parts(options, 8, parts, fetched) {
        Err(e) => assert_eq!(
            e,
            OpenError::ManifestPartLoad {
                part_id: PartId(11).display_text(),
                source: "gone".to_string(),
            }
        ),
        Ok(_) => panic!("expected an error"),
    }
}

#[test]
fn refresh_loads_only_what_is_new() {
    let mut st = opened();
    assert!(st.refresh(Ok(None)).expect("no pointer").is_none());
    assert!(st.refresh(Ok(Some(pointer(3)))).expect("same").is_none());
    assert!(st.refresh(Ok(Some(pointer(2)))).expect("older").is_none());
    let next = st.refresh(Ok(Some(pointer(4)))).expect("newer").expect("newer");
    let before = st.reader();

    let (eleven, twelve) = (part_11(), part_12());
    let parts = st.refresh_list(next, Ok(Ok(list(&[&twelve, &eleven])))).expect("list");
    assert_eq!(parts.missing, vec![twelve.listed.clone()]);
    st.refresh_parts(parts, vec![twelve.fetched()]).expect("refresh");
    assert_eq!(st.manifest_id(), 4);
    assert_eq!(uris(&st), vec![4, 3]);
    // The reader keeps its snapshot.
    assert_eq!(before.manifest_id(), 3);
    assert_eq!(before.n_superfiles(), 3);
}

#[test]
fn a_part_with_new_bytes_is_fetched_again() {
    let mut st = opened();
    let rewritten = stored(11, vec![entry(3, 7), entry(9, 2)]);
    assert_ne!(rewritten.listed.content_hash, part_11().listed.content_hash);
    let listed = list(&[&part_10(), &rewritten]);
    let parts = st.refresh_list(request(4), Ok(Ok(listed))).expect("list");
    assert_eq!(parts.missing, vec![rewritten.listed.clone()]);
    st.refresh_parts(parts, vec![rewritten.fetched()]).expect("refresh");
    assert_eq!(uris(&st), vec![1, 2, 3, 9]);
    let reader = st.reader();
    let kept = reader.manifest().list.as_ref().expect("list");
    assert_eq!(kept.options_hash, ContentHash([0; 32]));
    assert_eq!(kept.parts[1], rewritten.listed);
}

#[test]
fn a_part_that_was_never_loaded_is_fetched_when_all_are() {
    let mut st = opened_lazily(opts(true));
    let (ten, eleven) = (part_10(), part_11());
    let parts = st.refresh_list(request(4), Ok(Ok(list(&[&ten, &eleven])))).expect("list");
    assert!(parts.eager);
    assert_eq!(parts.missing, vec![ten.listed.clone(), eleven.listed.clone()]);
    st.refresh_parts(parts, vec![ten.fetched(), eleven.fetched()]).expect("refresh");
    assert_eq!(uris(&st), vec![1, 2, 3]);
    // A long list leaves what is at hand as it is.
    let listed = list(&[&ten, &part_12(), &eleven]);
    let parts = st.refresh_list(request(5), Ok(Ok(listed))).expect("list");
    assert!(!parts.eager);
    assert_eq!(parts.missing, vec![part_12().listed]);
    st.refresh_parts(parts, Vec::new()).expect("refresh");
    let reader = st.reader();
    let loaded = |id: u128| reader.manifest().parts.get(&id).expect("cell").value().1.is_some();
    assert!(loaded(10) && loaded(11) && !loaded(12));
}

#[test]
fn bytes_with_another_digest_are_not_the_listed_part() {
    let (ten, eleven) = (part_10(), part_11());
    let found = load_part(&ten.listed, &ten.fetched()).expect("load");
    assert_eq!(found.superfiles.len(), 2);
    let mismatch = load_part(&ten.listed, &eleven.fetched()).expect_err("other bytes");
    assert_eq!(
        mismatch,
        format!(
            "content hash mismatch: expected {}, got {}",
            ten.listed.content_hash.display_text(),
            eleven.listed.content_hash.display_text()
        )
    );
    let garbage = vec![1u8, 2, 3];
    let listed = ListedPart { content_hash: ContentHash::of(&garbage), ..ten.listed.clone() };
    let given = PartBytes { bytes: garbage, refused: Vec::new() };
    let broken = load_part(&listed, &Ok(given)).expect_err("no frame");
    assert!(broken.starts_with("zstd decompress failed: "));
    assert_eq!(load_part(&listed, &Err("gone".to_string())).expect_err("gone"), "gone");
}

#[test]
fn a_part_with_a_refused_summary_is_not_loaded() {
    let ten = part_10();
    let refused = RefusedSummary {
        summary: Summary::FtsSummary,
        bytes: Vec::new(),
        error: DecodeError::Truncated { needed: 4, had: 0, what: "fts summary" },
    };
    let given = PartBytes { bytes: ten.bytes.clone(), refused: vec![refused] };
    assert_eq!(
        load_part(&ten.listed, &Ok(given)).expect_err("refused"),
        "per-summary decode failed: truncated fts summary: needed 4 bytes, had 0"
    );
}

#[test]
fn a_failed_refresh_keeps_the_snapshot() {
    let mut st = opened();
    let parts = st.refresh_list(request(4), Ok(Ok(list(&[&part_12()])))).expect("list");
    let failed = st.refresh_parts(parts, vec![Err("gone".to_string())]);
    assert!(matches!(failed, Err(OpenError::ManifestPartLoad { .. })));
    assert_eq!(st.manifest_id(), 3);
    assert_eq!(uris(&st), vec![1, 2, 3]);
    match fresh().refresh(Ok(Some(pointer(9)))) {
        Err(OpenError::Build(text)) => assert_eq!(text, REFRESH_NEEDS_STORAGE),
        _ => panic!("expected an error"),
    }
}

// ---- from parts to superfiles ------------------------------------------

#[test]
fn kept_parts_are_flattened_in_order() {
    let parts = || vec![Ok(part(10, vec![entry(1, 5)])), Ok(part(11, vec![entry(2, 6), entry(3, 7)]))];
    let kept = load_kept_parts(parts()).expect("kept");
    let ids = |flat: Vec<Arc<SuperfileEntry>>| flat.iter().map(|e| e.uri.0).collect::<Vec<_>>();
    assert_eq!(ids(flatten_segments(&kept)), vec![1, 2, 3]);
    assert_eq!(ids(load_and_flatten(parts()).expect("flat")), vec![1, 2, 3]);
    assert!(load_kept_parts(Vec::new()).expect("none").is_empty());

    let mut failing = parts();
    failing.push(Err("a".to_string()));
    failing.push(Err("b".to_string()));
    match load_and_flatten(failing) {
        Err(e) => assert_eq!(e, QueryError::Store("part load: a".to_string())),
        Ok(_) => panic!("expected an error"),
    }
    let manifest = Manifest::empty().with_appended(&vec![entry(8, 1), entry(9, 1)]);
    assert_eq!(ids(fallback_to_flat_segments(&manifest)), vec![8, 9]);
}
