use std::collections::{HashMap, HashSet};
use infino::supertable::manifest::disk_cache::{
    cache_filename, parse_cache_filename, scan_file, tmp_filename, ManifestCacheStats,
    ManifestDiskCache, ScanAction, CACHE_FILE_PREFIX, CACHE_FILE_SUFFIX,
};
use infino::supertable::manifest::part::{ContentHash, SuperfileUri};
use infino::supertable::reader_cache::config::{
    CacheEvictionPolicy, ColdFetchMode, DiskCacheConfig, EvictionCandidate, LruPolicy,
};

type Files = HashMap<String, Vec<u8>>;

/// The cache over a directory that is held in memory.
struct Disk {
    cache: ManifestDiskCache,
    files: Files,
    clock: u64,
}

impl Disk {
    fn open(files: Files, budget: u64) -> Disk {
        let mut cache = ManifestDiskCache::new(budget);
        let mut kept = Files::new();
        for (name, bytes) in files {
            match scan_file(&name) {
                ScanAction::RemoveTmp => {}
                ScanAction::Register(hash) => {
                    cache.scan_existing(hash, bytes.len() as u64, 0);
                    kept.insert(name, bytes);
                }
                ScanAction::Ignore => {
                    kept.insert(name, bytes);
                }
            }
        }
        Disk { cache, files: kept, clock: 0 }
    }

    fn get(&mut self, hash: &ContentHash) -> Option<Vec<u8>> {
        self.clock += 1;
        if !self.cache.begin_get(hash) {
            return None;
        }
        let read = self.files.get(&cache_filename(hash)).cloned();
        let outcome = self.cache.get(hash, read, self.clock);
        if outcome.remove_file {
            self.files.remove(&cache_filename(hash));
        }
        outcome.bytes
    }

    fn put(&mut self, hash: ContentHash, bytes: &[u8]) {
        self.clock += 1;
        let plan = self.cache.begin_put(&hash, bytes.len() as u64);
        for victim in &plan.victims {
            self.files.remove(&cache_filename(victim));
        }
        if plan.write {
            self.files.insert(cache_filename(&hash), bytes.to_vec());
            self.cache.put(hash, bytes.len() as u64, true, self.clock);
        }
    }

    fn stats(&self) -> ManifestCacheStats {
        self.cache.stats()
    }
}

fn hash_of(bytes: &[u8]) -> ContentHash {
    ContentHash::of(bytes)
}

#[test]
fn put_then_get_roundtrips() {
    let mut disk = Disk::open(Files::new(), 1 << 20);
    let bytes = b"compressed-part-bytes".to_vec();
    let h = hash_of(&bytes);
    disk.put(h, &bytes);

    let got = disk.get(&h).expect("hit");
    assert_eq!(got, bytes);
    let stats = disk.stats();
    assert_eq!(stats.n_entries, 1);
    assert_eq!(stats.n_hits, 1);
    assert_eq!(stats.current_bytes, bytes.len() as u64);
}

#[test]
fn miss_on_unknown_hash() {
    let mut disk = Disk::open(Files::new(), 1 << 20);
    let h = hash_of(b"never-inserted");
    assert!(disk.get(&h).is_none());
    assert_eq!(disk.stats().n_misses, 1);
}

#[test]
fn put_is_idempotent() {
    let mut disk = Disk::open(Files::new(), 1 << 20);
    let bytes = b"abc".to_vec();
    let h = hash_of(&bytes);
    disk.put(h, &bytes);
    disk.put(h, &bytes);
    assert_eq!(disk.stats().n_entries, 1);
    assert_eq!(disk.stats().current_bytes, bytes.len() as u64);
}

#[test]
fn oversized_part_is_not_cached() {
    let mut disk = Disk::open(Files::new(), 4);
    let bytes = b"way too big for a 4 byte budget".to_vec();
    let h = hash_of(&bytes);
    disk.put(h, &bytes);
    assert_eq!(disk.stats().n_entries, 0);
    assert!(disk.get(&h).is_none());
}

#[test]
fn lru_eviction_frees_room() {
    // Budget fits two 10-byte parts but not three.
    let mut disk = Disk::open(Files::new(), 25);
    let a = vec![1u8; 10];
    let b = vec![2u8; 10];
    let c = vec![3u8; 10];
    let (ha, hb, hc) = (hash_of(&a), hash_of(&b), hash_of(&c));
    disk.put(ha, &a);
    disk.put(hb, &b);
    // Touch `a` so `b` becomes the LRU victim.
    assert!(disk.get(&ha).is_some());
    disk.put(hc, &c);

    assert!(disk.get(&ha).is_some(), "a kept (recently used)");
    assert!(disk.get(&hc).is_some(), "c kept (just inserted)");
    assert!(disk.get(&hb).is_none(), "b evicted (LRU)");
    assert!(disk.stats().n_evictions >= 1);
    assert!(disk.stats().current_bytes <= disk.stats().budget_bytes);
}

#[test]
fn between_writes_only_the_entries_are_accounted_for() {
    let mut disk = Disk::open(Files::new(), 25);
    for n in 1..6u8 {
        let bytes = vec![n; 4 + n as usize];
        disk.put(hash_of(&bytes), &bytes);
        let held: usize = disk.files.values().map(Vec::len).sum();
        assert_eq!(disk.stats().current_bytes, held as u64);
        assert!(disk.stats().current_bytes <= 25);
        assert_eq!(disk.get(&hash_of(&bytes)), Some(bytes));
    }
    // A write that fails gives its reservation back.
    let before = disk.stats().current_bytes;
    let lost = hash_of(b"lost");
    let plan = disk.cache.begin_put(&lost, 1);
    assert!(plan.write);
    let freed = before + 1 - disk.stats().current_bytes;
    disk.cache.put(lost, 1, false, 99);
    assert_eq!(disk.stats().current_bytes, before - freed);
}

#[test]
fn corrupt_file_is_treated_as_miss() {
    let mut disk = Disk::open(Files::new(), 1 << 20);
    let bytes = b"genuine-bytes".to_vec();
    let h = hash_of(&bytes);
    disk.put(h, &bytes);
    // Overwrite the file with garbage that won't hash to h.
    let path = cache_filename(&h);
    disk.files.insert(path.clone(), b"tampered".to_vec());
    assert!(disk.get(&h).is_none(), "corruption ⇒ miss");
    // The bad file is gone and the entry dropped.
    assert!(!disk.files.contains_key(&path));
    assert_eq!(disk.stats().n_entries, 0);
}

#[test]
fn restart_scan_rebuilds_index() {
    let bytes = b"survives-restart".to_vec();
    let h = hash_of(&bytes);
    let mut disk = Disk::open(Files::new(), 1 << 20);
    disk.put(h, &bytes);
    disk.files.insert(tmp_filename(&h), b"half".to_vec());
    disk.files.insert("notes.txt".to_string(), b"other".to_vec());
    // New cache over the same directory: index rebuilt from it.
    let mut reopened = Disk::open(disk.files, 1 << 20);
    assert_eq!(reopened.stats().n_entries, 1);
    assert_eq!(reopened.stats().current_bytes, bytes.len() as u64);
    assert_eq!(reopened.get(&h).expect("hit after restart"), bytes);
    // A half-written file is gone, another file is left alone.
    assert!(!reopened.files.contains_key(&tmp_filename(&h)));
    assert!(reopened.files.contains_key("notes.txt"));
}

#[test]
fn filename_roundtrips_through_parse() {
    let h = hash_of(b"some-part");
    let name = cache_filename(&h);
    assert!(name.starts_with(CACHE_FILE_PREFIX));
    assert!(name.ends_with(CACHE_FILE_SUFFIX));
    assert_eq!(parse_cache_filename(&name), Some(h));
    // Unrelated names are rejected.
    assert_eq!(parse_cache_filename("not-a-part.txt"), None);
    assert_eq!(parse_cache_filename("part-xyz.avro.zst"), None);
    assert_eq!(parse_cache_filename(&tmp_filename(&h)), None);
}

// ---- eviction of superfiles --------------------------------------------

fn candidate(uri: u128, size_bytes: u64, last_access_us: u64) -> EvictionCandidate {
    EvictionCandidate { uri: SuperfileUri(uri), size_bytes, last_access_us }
}

fn victims(candidates: &[EvictionCandidate], pinned: &[u128], needed: u64) -> Vec<u128> {
    let pinned: HashSet<u128> = pinned.iter().copied().collect();
    let chosen = LruPolicy::new().select_for_eviction(candidates, &pinned, needed);
    chosen.iter().map(|uri| uri.0).collect()
}

#[test]
fn the_least_recently_used_go_first_until_enough_is_freed() {
    let candidates = vec![candidate(1, 10, 30), candidate(2, 10, 10), candidate(3, 10, 20)];
    assert_eq!(victims(&candidates, &[], 15), vec![2, 3]);
    assert_eq!(victims(&candidates, &[], 10), vec![2]);
    assert_eq!(victims(&candidates, &[], 0), Vec::<u128>::new());
    // Pinned files stay; and nothing goes if it would not be enough.
    assert_eq!(victims(&candidates, &[2], 15), vec![3, 1]);
    assert_eq!(victims(&candidates, &[], 31), Vec::<u128>::new());
    assert_eq!(victims(&candidates, &[2], 25), Vec::<u128>::new());
}

#[test]
fn a_cache_under_a_root_has_the_default_settings() {
    let config = DiskCacheConfig::with_cache_root("/tmp/cache".to_string());
    assert_eq!(config.cache_root, "/tmp/cache");
    assert_eq!(config.disk_budget_bytes, 10 << 30);
    assert_eq!(config.cold_fetch_mode, ColdFetchMode::default());
    assert_eq!(config.cold_fetch_mode, ColdFetchMode::HybridWithPrefetch);
    assert_eq!(config.cold_fetch_streams, 16);
    assert_eq!(config.cold_fetch_chunk_bytes, 16 << 20);
    assert_eq!(config.prefetch_concurrency, 8);
    assert_eq!(config.mmap_cold_threshold_secs, 300);
    assert_eq!(config.mmap_sweep_interval_secs, 75);
    assert!(config.verify_crc_on_open);
    let candidates = [candidate(1, 10, 30), candidate(2, 10, 10), candidate(3, 10, 20)];
    let chosen = config.eviction.select_for_eviction(&candidates, &HashSet::new(), 15);
    assert_eq!(chosen, vec![SuperfileUri(2), SuperfileUri(3)]);
}

struct KeepAll;

impl CacheEvictionPolicy for KeepAll {
    fn select_for_eviction(
        &self,
        _candidates: &[EvictionCandidate],
        _pinned: &HashSet<u128>,
        _bytes_needed: u64,
    ) -> Vec<SuperfileUri> {
        Vec::new()
    }
}

#[test]
fn a_cache_takes_another_policy() {
    let mut config = DiskCacheConfig::with_cache_root("/tmp/cache".to_string());
    config.eviction = Box::new(KeepAll);
    let candidates = [candidate(1, 10, 30)];
    assert!(config.eviction.select_for_eviction(&candidates, &HashSet::new(), 5).is_empty());
}

#[test]
fn caches_describe_themselves() {
    let mut config = DiskCacheConfig::with_cache_root("/tmp/\"cache\"".to_string());
    config.cold_fetch_mode = ColdFetchMode::RangeOnly;
    assert_eq!(
        config.debug_text(),
        "DiskCacheConfig { cache_root: \"/tmp/\\\"cache\\\"\", \
         disk_budget_bytes: 10737418240, cold_fetch_mode: RangeOnly, cold_fetch_streams: 16, \
         cold_fetch_chunk_bytes: 16777216, prefetch_concurrency: 8, \
         mmap_cold_threshold_secs: 300, mmap_sweep_interval_secs: 75, \
         eviction: \"<dyn CacheEvictionPolicy>\" }"
    );
    let mut cache = ManifestDiskCache::new(100);
    cache.scan_existing(ContentHash::of(b"x"), 40, 0);
    assert_eq!(
        cache.debug_text("/tmp/m"),
        "ManifestDiskCache { cache_root: \"/tmp/m\", budget_bytes: 100, current_bytes: 40, n_entries: 1 }"
    );
}
