use std::collections::HashMap;
use std::sync::Arc;
use infino::supertable::error::QueryError;
use infino::supertable::manifest::part::SuperfileUri;
use infino::supertable::query::vector::{apply_tombstone_filter, subtract_tombstones};
use infino::supertable::query::SuperfileHit;
use infino::supertable::tombstones::cache::{
    Sidecar, SidecarCache, SidecarCacheError, SidecarReply, DEFAULT_NEGATIVE_TTL,
    DEFAULT_REFRESH_TTL,
};
use roaring::RoaringBitmap;

/// The sidecars in storage: deleted rows by superfile.
type Storage = HashMap<u128, Vec<u32>>;

fn fetch(storage: &Storage, id: u128) -> SidecarReply {
    Ok(storage.get(&id).map(|rows| Sidecar {
        bitmap: rows.iter().copied().collect(),
        seal: None,
        etag: "etag".to_string(),
    }))
}

fn bitmap_for(
    cache: &mut SidecarCache,
    storage: &Storage,
    id: u128,
    now: u64,
) -> Arc<RoaringBitmap> {
    match cache.bitmap_for(id, now) {
        Some(bitmap) => bitmap,
        None => cache.refresh(id, fetch(storage, id), now).expect("refresh").0,
    }
}

fn rows(bitmap: &RoaringBitmap) -> Vec<u32> {
    bitmap.iter().collect()
}

#[test]
fn first_lookup_against_absent_sidecar_returns_empty_bitmap() {
    let mut cache = SidecarCache::new(DEFAULT_REFRESH_TTL);
    let bitmap = bitmap_for(&mut cache, &Storage::new(), 0xAB, 5);
    assert!(bitmap.is_empty());
    assert_eq!(cache.len(), 1);
}

#[test]
fn lookup_reflects_persisted_sidecar() {
    let mut cache = SidecarCache::new(DEFAULT_REFRESH_TTL);
    let storage = Storage::from([(0xCAFE, vec![1, 3, 5])]);
    let cached = bitmap_for(&mut cache, &storage, 0xCAFE, 5);
    assert_eq!(rows(&cached), vec![1u32, 3, 5]);
}

#[test]
fn second_lookup_within_ttl_skips_refresh() {
    let mut cache = SidecarCache::new(DEFAULT_REFRESH_TTL);
    let mut storage = Storage::new();
    let now = 5;
    let _ = bitmap_for(&mut cache, &storage, 0xDEAD, now);
    storage.insert(0xDEAD, vec![42]);
    let cached = bitmap_for(&mut cache, &storage, 0xDEAD, now);
    assert!(cached.is_empty(), "cache must hold the pre-write view");
}

#[test]
fn invalidate_forces_next_lookup_to_refresh() {
    let mut cache = SidecarCache::new(DEFAULT_REFRESH_TTL);
    let mut storage = Storage::new();
    let now = 5;
    let _ = bitmap_for(&mut cache, &storage, 0xBEEF, now);
    storage.insert(0xBEEF, vec![7]);
    cache.invalidate(0xBEEF);
    let cached = bitmap_for(&mut cache, &storage, 0xBEEF, now);
    assert_eq!(rows(&cached), vec![7u32]);
}

#[test]
fn prefetch_populates_all_ids_in_one_batch() {
    let mut cache = SidecarCache::new(DEFAULT_REFRESH_TTL);
    // One present sidecar, the rest absent.
    let present: u128 = 0x01;
    let storage = Storage::from([(present, vec![9])]);
    let ids: Vec<u128> = std::iter::once(present).chain(2..32u128).collect();

    let now = 5;
    let stale = cache.prefetch(&ids, now);
    assert_eq!(stale, ids);
    let replies = stale.into_iter().map(|id| (id, fetch(&storage, id))).collect();
    cache.absorb(replies, now);

    // Every id is now cached, so a follow-up sweep asks for nothing.
    assert_eq!(cache.len(), ids.len());
    for &id in &ids {
        assert!(!cache.needs_refresh(id, now), "id {id} should be fresh");
    }
    assert!(cache.prefetch(&ids, now).is_empty());
    assert_eq!(rows(&cache.bitmap_for(present, now).expect("present")), vec![9u32]);
    assert!(cache.bitmap_for(ids[1], now).expect("absent").is_empty());
}

#[test]
fn seal_for_returns_cached_seal() {
    let mut cache = SidecarCache::new(DEFAULT_REFRESH_TTL);
    let storage = Storage::from([(0xFFFF, vec![42])]);
    let now = 5;
    assert_eq!(cache.seal_for(0xFFFF, now), None, "not known yet");
    let _ = bitmap_for(&mut cache, &storage, 0xFFFF, now);
    assert_eq!(cache.seal_for(0xFFFF, now), Some(None), "initially unsealed");
    let sealed = Sidecar {
        bitmap: RoaringBitmap::new(),
        seal: Some(vec![1, 2, 3]),
        etag: "etag".to_string(),
    };
    cache.refresh(0xFFFF, Ok(Some(sealed)), now).expect("refresh");
    assert_eq!(cache.seal_for(0xFFFF, now), Some(Some(vec![1, 2, 3])));
}

#[test]
fn sidecar_for_returns_both_bitmap_and_seal() {
    let mut cache = SidecarCache::new(DEFAULT_REFRESH_TTL);
    let storage = Storage::from([(0xABCD, vec![1, 2])]);
    let now = 5;
    assert!(cache.sidecar_for(0xABCD, now).is_none());
    let (bitmap, seal) = cache.refresh(0xABCD, fetch(&storage, 0xABCD), now).expect("refresh");
    assert_eq!(rows(&bitmap), vec![1u32, 2]);
    assert!(seal.is_none());
    let (cached_bitmap, seal) = cache.sidecar_for(0xABCD, now).expect("lookup");
    assert_eq!(rows(&cached_bitmap), vec![1u32, 2]);
    assert!(seal.is_none());
}

#[test]
fn empty_view_uses_long_negative_ttl() {
    let one_ms = 1_000_000;
    let mut cache = SidecarCache::new(one_ms);
    assert_eq!(cache.ttl_for_empty(true), DEFAULT_NEGATIVE_TTL);
    assert_eq!(cache.ttl_for_empty(false), one_ms);

    let storage = Storage::from([(1, vec![7])]);
    let _ = bitmap_for(&mut cache, &storage, 1, 0);
    let _ = bitmap_for(&mut cache, &storage, 2, 0);
    assert!(!cache.needs_refresh(1, one_ms - 1));
    assert!(cache.needs_refresh(1, one_ms));
    assert!(!cache.needs_refresh(2, DEFAULT_NEGATIVE_TTL - 1));
    assert!(cache.needs_refresh(2, DEFAULT_NEGATIVE_TTL));
}

#[test]
fn cache_is_empty_on_construction() {
    let cache = SidecarCache::new(DEFAULT_REFRESH_TTL);
    assert!(cache.is_empty());
    assert_eq!(cache.len(), 0);
}

#[test]
fn a_failed_refresh_leaves_what_was_known() {
    let mut cache = SidecarCache::new(DEFAULT_REFRESH_TTL);
    let storage = Storage::from([(3, vec![7])]);
    let _ = bitmap_for(&mut cache, &storage, 3, 0);
    let err = cache.refresh(3, Err("reset".to_string()), 1).expect_err("failed");
    assert_eq!(
        err.message(),
        "tombstone sidecar refresh failed for 00000000-0000-0000-0000-000000000003: reset"
    );
    assert_eq!(rows(&cache.bitmap_for(3, 1).expect("still known")), vec![7]);
    cache.absorb(vec![(3, Err("reset".to_string())), (4, Ok(None))], 1);
    assert_eq!(rows(&cache.bitmap_for(3, 1).expect("still known")), vec![7]);
    assert!(!cache.is_empty());
    assert_eq!(cache.len(), 2);
}

// ---- dropping deleted rows ---------------------------------------------

fn hits(n: u32) -> Vec<SuperfileHit> {
    (0..n)
        .map(|d| SuperfileHit {
            superfile: SuperfileUri(0xFEEDFACE),
            local_doc_id: d,
            score: (d as f32).to_bits(),
        })
        .collect()
}

#[test]
fn apply_tombstone_filter_drops_set_bits() {
    let mut cache = SidecarCache::new(DEFAULT_REFRESH_TTL);
    let storage = Storage::from([(0xFEEDFACE, vec![1, 3, 5])]);
    let deleted = bitmap_for(&mut cache, &storage, 0xFEEDFACE, 5);
    let mut hits = hits(8);
    apply_tombstone_filter(&mut hits, Some(Ok(deleted))).expect("filter");
    let remaining: Vec<u32> = hits.iter().map(|h| h.local_doc_id).collect();
    assert_eq!(remaining, vec![0u32, 2, 4, 6, 7]);
}

#[test]
fn apply_tombstone_filter_is_no_op_without_cache() {
    let mut hits = hits(4);
    let original = hits.clone();
    apply_tombstone_filter(&mut hits, None).expect("no-cache");
    assert_eq!(hits, original);
}

#[test]
fn apply_tombstone_filter_short_circuits_on_empty_bitmap() {
    let mut cache = SidecarCache::new(DEFAULT_REFRESH_TTL);
    let deleted = bitmap_for(&mut cache, &Storage::new(), 0x1111, 5);
    let mut hits = hits(4);
    let original = hits.clone();
    apply_tombstone_filter(&mut hits, Some(Ok(deleted))).expect("filter");
    assert_eq!(hits, original);
}

#[test]
fn deleted_rows_are_no_candidates() {
    let mut admitted: RoaringBitmap = [1u32, 2, 3, 4].into_iter().collect();
    let deleted: RoaringBitmap = [2u32, 4, 6].into_iter().collect();
    subtract_tombstones(&mut admitted, Some(Ok(Arc::new(deleted)))).expect("subtract");
    assert_eq!(rows(&admitted), vec![1, 3]);
    subtract_tombstones(&mut admitted, Some(Ok(Arc::new(RoaringBitmap::new())))).expect("none");
    subtract_tombstones(&mut admitted, None).expect("no cache");
    assert_eq!(rows(&admitted), vec![1, 3]);

    let failure = || SidecarCacheError::RefreshFailed {
        superfile_id: 1,
        message: "reset".to_string(),
    };
    let text = format!("tombstone cache: {}", failure().message());
    assert_eq!(
        subtract_tombstones(&mut admitted, Some(Err(failure()))),
        Err(QueryError::Store(text.clone()))
    );
    assert_eq!(rows(&admitted), vec![1, 3]);
    let mut found = hits(2);
    assert_eq!(
        apply_tombstone_filter(&mut found, Some(Err(failure()))),
        Err(QueryError::Store(text))
    );
    assert_eq!(found, hits(2));
}
