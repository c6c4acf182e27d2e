//! Accounting of the on-disk cache of manifest parts.
//!
//! A part is named by the digest of its bytes, so a cached file is never out
//! of date; what has to be decided is what fits the budget, what is evicted,
//! and whether a file still holds what its name says. Files are read, written
//! and removed by the caller.

use dashmap::DashMap;
use vstd::prelude::*;
use vstd::string::StringExecFns;
use crate::order::{comes_before, holds_position, sort_positions};
use crate::supertable::manifest::cache_index::{
    index_contents, index_entries, index_get, index_insert, index_len, index_remove, lists_index,
    new_index,
};
use crate::supertable::manifest::frame::blake3_digest;
use crate::supertable::manifest::part::{hash_of_chars, same_hash, ContentHash};
use crate::text::{
    decimal, hex, is_hex, push_decimal, push_hex, quoted, quoted_chars, spells, to_chars, unhex,
};

verus! {

/// Start of the name of a cached part.
pub const CACHE_FILE_PREFIX: &'static str = "part-";

/// End of the name of a cached part.
pub const CACHE_FILE_SUFFIX: &'static str = ".avro.zst";

/// End of the name of a file that is still being written.
pub const CACHE_TMP_SUFFIX: &'static str = ".tmp";

// ---- File names -------------------------------------------------------------

/// The name of the cached part with digest `hash`.
pub open spec fn filename_chars(hash: Seq<u8>) -> Seq<char> {
    CACHE_FILE_PREFIX@ + hex(hash) + CACHE_FILE_SUFFIX@
}

/// Does `s` end with `suffix`?
pub open spec fn ends_with(s: Seq<char>, suffix: Seq<char>) -> bool {
    s.len() >= suffix.len() && s.skip(s.len() - suffix.len()) == suffix
}

/// Does `s` start with `prefix`?
pub open spec fn starts_with(s: Seq<char>, prefix: Seq<char>) -> bool {
    s.len() >= prefix.len() && s.take(prefix.len() as int) == prefix
}

/// The digest that the name of a cached part holds.
pub open spec fn hash_of_filename(name: Seq<char>) -> Option<Seq<u8>> {
    if name.len() == 78 && starts_with(name, CACHE_FILE_PREFIX@) && ends_with(
        name,
        CACHE_FILE_SUFFIX@,
    ) && is_hex(name.subrange(5, 69)) {
        Some(unhex(name.subrange(5, 69)))
    } else {
        None
    }
}

/// The name of the cached part: `part-<hex>.avro.zst`.
pub fn cache_filename(hash: &ContentHash) -> (name: String)
    ensures
        name@ == filename_chars(hash@),
{
    let mut name = CACHE_FILE_PREFIX.to_owned();
    push_hex(&mut name, hash.0.as_slice());
    name.append(CACHE_FILE_SUFFIX);
    name
}

/// The name of the part while it is being written.
pub fn tmp_filename(hash: &ContentHash) -> (name: String)
    ensures
        name@ == filename_chars(hash@) + CACHE_TMP_SUFFIX@,
{
    let mut name = cache_filename(hash);
    name.append(CACHE_TMP_SUFFIX);
    name
}

/// The digest in the name of a cached part; `None` for any other name.
pub fn parse_cache_filename(name: &str) -> (res: Option<ContentHash>)
    ensures
        res is Some <==> hash_of_filename(name@) is Some,
        res matches Some(hash) ==> hash_of_filename(name@) == Some(hash@),
{
    proof {
        reveal_strlit("part-");
        reveal_strlit(".avro.zst");
    }
    let chars = to_chars(name);
    if chars.len() != 78 {
        return None;
    }
    proof {
        assert(name@.take(5) =~= name@.subrange(0, 5));
        assert(name@.skip(69) =~= name@.subrange(69, 78));
    }
    if !spells(&chars, 0, 5, CACHE_FILE_PREFIX) || !spells(&chars, 69, 78, CACHE_FILE_SUFFIX) {
        return None;
    }
    hash_of_chars(&chars, 5)
}

/// The name of a cached part holds its digest.
pub proof fn lemma_filename_reads_back(hash: Seq<u8>)
    requires
        hash.len() == 32,
    ensures
        hash_of_filename(filename_chars(hash)) == Some(hash),
{
    reveal_strlit("part-");
    reveal_strlit(".avro.zst");
    crate::text::lemma_hex_reads_back(hash);
    let name = filename_chars(hash);
    assert(name.take(5) =~= CACHE_FILE_PREFIX@);
    assert(name.skip(69) =~= CACHE_FILE_SUFFIX@);
    assert(name.subrange(5, 69) =~= hex(hash));
}

/// What to do with a file found in the cache directory.
#[derive(Debug, Clone, Copy, PartialEq, Eq)]
pub enum ScanAction {
    /// A write was interrupted: remove the file.
    RemoveTmp,
    /// A cached part.
    Register(ContentHash),
    /// Something else.
    Ignore,
}

/// Decides what a file found in the cache directory is.
pub fn scan_file(name: &str) -> (action: ScanAction)
    ensures
        action == ScanAction::RemoveTmp <==> ends_with(name@, CACHE_TMP_SUFFIX@),
        action matches ScanAction::Register(hash) ==> hash_of_filename(name@) == Some(hash@),
        action == ScanAction::Ignore ==> hash_of_filename(name@) is None,
{
    proof {
        reveal_strlit(".tmp");
    }
    let chars = to_chars(name);
    let n = chars.len();
    if n >= 4 {
        proof {
            assert(name@.skip(n - 4) =~= name@.subrange(n - 4, n as int));
        }
        if spells(&chars, n - 4, n, CACHE_TMP_SUFFIX) {
            return ScanAction::RemoveTmp;
        }
    }
    match parse_cache_filename(name) {
        Some(hash) => ScanAction::Register(hash),
        None => ScanAction::Ignore,
    }
}

// ---- Sizes ------------------------------------------------------------------

/// Entries by digest: size and last access.
pub type Entries = Map<Seq<u8>, (u64, u64)>;

/// The sizes of all entries together.
pub open spec fn total_size(entries: Entries) -> nat
    decreases entries.dom().len(),
    when entries.dom().finite()
{
    if entries.dom().len() == 0 {
        0
    } else {
        let key = entries.dom().choose();
        entries[key].0 as nat + total_size(entries.remove(key))
    }
}

/// An entry contributes its size.
pub proof fn lemma_total_remove(entries: Entries, key: Seq<u8>)
    requires
        entries.dom().finite(),
        entries.contains_key(key),
    ensures
        total_size(entries) == entries[key].0 as nat + total_size(entries.remove(key)),
    decreases entries.dom().len(),
{
    let first = entries.dom().choose();
    if first != key {
        lemma_total_remove(entries.remove(first), key);
        lemma_total_remove(entries.remove(key), first);
        assert(entries.remove(first).remove(key) =~= entries.remove(key).remove(first));
    }
}

/// A new entry adds its size.
pub proof fn lemma_total_insert(entries: Entries, key: Seq<u8>, value: (u64, u64))
    requires
        entries.dom().finite(),
        !entries.contains_key(key),
    ensures
        total_size(entries.insert(key, value)) == total_size(entries) + value.0,
{
    lemma_total_remove(entries.insert(key, value), key);
    assert(entries.insert(key, value).remove(key) =~= entries);
}

/// A new value for an entry of the same size leaves the total as it is; in
/// general the size is exchanged.
pub proof fn lemma_total_replace(entries: Entries, key: Seq<u8>, value: (u64, u64))
    requires
        entries.dom().finite(),
        entries.contains_key(key),
    ensures
        total_size(entries.insert(key, value)) + entries[key].0 == total_size(entries) + value.0,
{
    lemma_total_remove(entries, key);
    lemma_total_remove(entries.insert(key, value), key);
    assert(entries.insert(key, value).remove(key) =~= entries.remove(key));
}

// ---- Eviction ---------------------------------------------------------------

/// The digests over sequences.
pub open spec fn hashes_view(hashes: Seq<ContentHash>) -> Seq<Seq<u8>> {
    hashes.map_values(|h: ContentHash| h@)
}

/// The entries without the victims.
pub open spec fn without(entries: Entries, victims: Seq<Seq<u8>>) -> Entries
    decreases victims.len(),
{
    if victims.len() == 0 {
        entries
    } else {
        without(entries, victims.drop_last()).remove(victims.last())
    }
}

/// The sizes of the victims together.
pub open spec fn freed_by(entries: Entries, victims: Seq<Seq<u8>>) -> nat
    decreases victims.len(),
{
    if victims.len() == 0 {
        0
    } else {
        freed_by(entries, victims.drop_last()) + entries[victims.last()].0 as nat
    }
}

/// May `victims` be evicted, in this order, to free `needed` bytes? They are
/// entries, the least recently used first; no more go than are needed; and
/// if they do not free enough, nothing is left.
pub open spec fn is_eviction(entries: Entries, needed: u64, victims: Seq<Seq<u8>>) -> bool {
    &&& victims.no_duplicates()
    &&& forall|i: int| 0 <= i < victims.len() ==> entries.contains_key(#[trigger] victims[i])
    &&& forall|i: int, j: int|
        0 <= i < j < victims.len() ==> entries[#[trigger] victims[i]].1
            <= entries[#[trigger] victims[j]].1
    &&& forall|i: int, key: Seq<u8>|
        0 <= i < victims.len() && without(entries, victims).contains_key(key)
            ==> entries[#[trigger] victims[i]].1 <= (#[trigger] entries[key]).1
    &&& victims.len() > 0 ==> freed_by(entries, victims.drop_last()) < needed
    &&& freed_by(entries, victims) < needed ==> without(entries, victims).dom() == Set::<
        Seq<u8>,
    >::empty()
}

proof fn lemma_without(entries: Entries, victims: Seq<Seq<u8>>)
    requires
        entries.dom().finite(),
        victims.no_duplicates(),
        forall|i: int| 0 <= i < victims.len() ==> entries.contains_key(#[trigger] victims[i]),
    ensures
        without(entries, victims).dom().finite(),
        forall|key: Seq<u8>| #[trigger]
            without(entries, victims).contains_key(key) <==> entries.contains_key(key)
                && !victims.contains(key),
        forall|key: Seq<u8>|
            without(entries, victims).contains_key(key) ==> (#[trigger] without(
                entries,
                victims,
            )[key]) == entries[key],
        total_size(without(entries, victims)) + freed_by(entries, victims) == total_size(entries),
    decreases victims.len(),
{
    if victims.len() > 0 {
        let first = victims.drop_last();
        let last = victims.last();
        assert forall|i: int| 0 <= i < first.len() implies entries.contains_key(
            #[trigger] first[i],
        ) by {
            assert(first[i] == victims[i]);
        }
        lemma_without(entries, first);
        assert(last == victims[victims.len() - 1]);
        assert(!first.contains(last));
        lemma_total_remove(without(entries, first), last);
        assert forall|key: Seq<u8>| #[trigger]
            without(entries, victims).contains_key(key) <==> entries.contains_key(key)
                && !victims.contains(key) by {
            if victims.contains(key) {
                let i = choose|i: int| 0 <= i < victims.len() && victims[i] == key;
                if i < first.len() {
                    assert(first[i] == key);
                }
            }
            if first.contains(key) {
                let i = choose|i: int| 0 <= i < first.len() && first[i] == key;
                assert(victims[i] == key);
            }
        }
    }
}

// ---- The cache --------------------------------------------------------------

/// Load of the cache.
#[derive(Debug, Clone, Copy, PartialEq, Eq, Structural)]
pub struct ManifestCacheStats {
    pub n_entries: u64,
    pub current_bytes: u64,
    pub budget_bytes: u64,
    pub n_hits: u64,
    pub n_misses: u64,
    pub n_evictions: u64,
}

/// Accounting of the cache. `current_bytes` covers the entries and what is
/// reserved for writes under way.
pub struct ManifestDiskCache {
    budget_bytes: u64,
    entries: DashMap<[u8; 32], (u64, u64)>,
    current_bytes: u64,
    n_hits: u64,
    n_misses: u64,
    n_evictions: u64,
}

/// [`ManifestDiskCache`] over a map.
#[verifier::ext_equal]
pub struct CacheView {
    pub budget_bytes: u64,
    pub entries: Entries,
    pub current_bytes: u64,
    pub n_hits: u64,
    pub n_misses: u64,
    pub n_evictions: u64,
}

impl View for ManifestDiskCache {
    type V = CacheView;

    closed spec fn view(&self) -> CacheView {
        CacheView {
            budget_bytes: self.budget_bytes,
            entries: index_contents(self.entries),
            current_bytes: self.current_bytes,
            n_hits: self.n_hits,
            n_misses: self.n_misses,
            n_evictions: self.n_evictions,
        }
    }
}

impl CacheView {
    /// The entries are finite and covered by `current_bytes`.
    pub open spec fn wf(self) -> bool {
        self.entries.dom().finite() && total_size(self.entries) <= self.current_bytes
    }

    /// No write is under way: nothing but the entries is accounted for.
    pub open spec fn settled(self) -> bool {
        self.entries.dom().finite() && self.current_bytes == total_size(self.entries)
    }

    /// The cache with one more part, found in the directory.
    pub open spec fn with_file(self, hash: Seq<u8>, size: u64, now_us: u64) -> Self {
        CacheView {
            entries: self.entries.insert(hash, (size, now_us)),
            current_bytes: (self.current_bytes + size) as u64,
            ..self
        }
    }

    /// The cache after an access.
    pub open spec fn touched(self, hash: Seq<u8>, now_us: u64) -> Self {
        CacheView {
            entries: if self.entries.contains_key(hash) {
                self.entries.insert(hash, (self.entries[hash].0, now_us))
            } else {
                self.entries
            },
            ..self
        }
    }

    /// The cache without a part.
    pub open spec fn dropped(self, hash: Seq<u8>) -> Self {
        CacheView {
            entries: self.entries.remove(hash),
            current_bytes: if self.entries.contains_key(hash) {
                (self.current_bytes - self.entries[hash].0) as u64
            } else {
                self.current_bytes
            },
            ..self
        }
    }

    /// The cache after a write of `size` reserved bytes: if the file is there
    /// and no other write of the same part came first, it is an entry now;
    /// otherwise the reservation is given back.
    pub open spec fn after_write(
        self,
        hash: Seq<u8>,
        size: u64,
        written: bool,
        now_us: u64,
    ) -> Self {
        if written && !self.entries.contains_key(hash) {
            CacheView { entries: self.entries.insert(hash, (size, now_us)), ..self }
        } else {
            CacheView { current_bytes: (self.current_bytes - size) as u64, ..self }
        }
    }
}

/// `x + y`, starting over after the largest number.
pub open spec fn wrapped_sum(x: u64, y: nat) -> u64 {
    ((x + y) % 0x1_0000_0000_0000_0000) as u64
}

/// A counter one further.
fn bump(x: u64) -> (y: u64)
    ensures
        y == wrapped_sum(x, 1),
{
    if x == u64::MAX {
        0
    } else {
        x + 1
    }
}

/// What a write has to do first.
#[derive(Debug)]
pub struct PutPlan {
    /// Cached files to remove, in this order.
    pub victims: Vec<ContentHash>,
    /// Is the part to be written? Its bytes are reserved if so.
    pub write: bool,
}

/// What a read turned out to be.
#[derive(Debug)]
pub struct GetOutcome {
    /// The cached bytes, if they are what the digest says.
    pub bytes: Option<Vec<u8>>,
    /// Is the file damaged, and to be removed?
    pub remove_file: bool,
}

impl ManifestDiskCache {
    /// An empty cache for `budget_bytes` bytes.
    pub fn new(budget_bytes: u64) -> (cache: Self)
        ensures
            cache@.wf(),
            cache@.budget_bytes == budget_bytes,
            cache@.entries.dom() == Set::<Seq<u8>>::empty(),
            cache@.current_bytes == 0,
            cache@.n_hits == 0,
            cache@.n_misses == 0,
            cache@.n_evictions == 0,
    {
        ManifestDiskCache {
            budget_bytes,
            entries: new_index(),
            current_bytes: 0,
            n_hits: 0,
            n_misses: 0,
            n_evictions: 0,
        }
    }

    /// Registers a cached part found in the directory.
    pub fn scan_existing(&mut self, hash: ContentHash, size: u64, now_us: u64)
        requires
            old(self)@.wf(),
            old(self)@.current_bytes + size <= u64::MAX,
        ensures
            final(self)@.wf(),
            final(self)@ == old(self)@.with_file(hash@, size, now_us),
    {
        proof {
            if self@.entries.contains_key(hash@) {
                lemma_total_replace(self@.entries, hash@, (size, now_us));
            } else {
                lemma_total_insert(self@.entries, hash@, (size, now_us));
            }
        }
        index_insert(&mut self.entries, hash.0, (size, now_us));
        self.current_bytes = self.current_bytes + size;
    }

    /// Starts a read: is there a file to read? Otherwise it is a miss.
    pub fn begin_get(&mut self, hash: &ContentHash) -> (cached: bool)
        ensures
            cached == old(self)@.entries.contains_key(hash@),
            cached ==> final(self)@ == old(self)@,
            !cached ==> final(self)@ == (CacheView {
                n_misses: wrapped_sum(old(self)@.n_misses, 1),
                ..old(self)@
            }),
    {
        match index_get(&self.entries, &hash.0) {
            Some(_) => true,
            None => {
                self.n_misses = bump(self.n_misses);
                false
            },
        }
    }

    /// Finishes a read: `read` has the bytes of the file, if it could be
    /// read. Bytes with another digest are damaged. A miss drops the entry; a
    /// hit counts as an access.
    pub fn get(&mut self, hash: &ContentHash, read: Option<Vec<u8>>, now_us: u64) -> (outcome:
        GetOutcome)
        requires
            old(self)@.wf(),
        ensures
            final(self)@.wf(),
            ({
                let before = old(self)@;
                let hit = read matches Some(bytes) && blake3_digest(bytes@) == hash@;
                &&& outcome.bytes is Some <==> hit
                &&& hit ==> outcome.bytes == read
                &&& outcome.remove_file <==> read is Some && !hit
                &&& hit ==> final(self)@ == (CacheView {
                    n_hits: wrapped_sum(before.n_hits, 1),
                    ..before.touched(hash@, now_us)
                })
                &&& !hit ==> final(self)@ == (CacheView {
                    n_misses: wrapped_sum(before.n_misses, 1),
                    ..before.dropped(hash@)
                })
            }),
    {
        let ghost before = self@;
        match read {
            None => {
                self.drop_entry(hash);
                self.n_misses = bump(self.n_misses);
                GetOutcome { bytes: None, remove_file: false }
            },
            Some(bytes) => {
                let found = ContentHash::of(&bytes);
                if !same_hash(&found, hash) {
                    self.drop_entry(hash);
                    self.n_misses = bump(self.n_misses);
                    return GetOutcome { bytes: None, remove_file: true };
                }
                if let Some((size, _)) = index_get(&self.entries, &hash.0) {
                    proof {
                        lemma_total_replace(before.entries, hash@, (size, now_us));
                    }
                    index_insert(&mut self.entries, hash.0, (size, now_us));
                }
                self.n_hits = bump(self.n_hits);
                GetOutcome { bytes: Some(bytes), remove_file: false }
            },
        }
    }

    /// Starts a write of `size` bytes under `hash`. A part that is cached, or
    /// larger than the whole budget, is not written; otherwise the least
    /// recently used parts make room.
    pub fn begin_put(&mut self, hash: &ContentHash, size: u64) -> (plan: PutPlan)
        requires
            old(self)@.wf(),
            !old(self)@.entries.contains_key(hash@) && size <= old(self)@.budget_bytes
                ==> old(self)@.current_bytes + size <= u64::MAX,
        ensures
            final(self)@.wf(),
            old(self)@.entries.contains_key(hash@) || size > old(self)@.budget_bytes ==> !plan.write
                && plan.victims@.len() == 0 && final(self)@ == old(self)@,
            !old(self)@.entries.contains_key(hash@) && size <= old(self)@.budget_bytes
                ==> reserves(
                old(self)@,
                size,
                plan.write,
                hashes_view(plan.victims@),
                final(self)@,
            ),
    {
        if index_get(&self.entries, &hash.0).is_some() || size > self.budget_bytes {
            return PutPlan { victims: Vec::new(), write: false };
        }
        let (write, victims) = self.reserve(size);
        PutPlan { victims, write }
    }

    /// Finishes a write: `written` says whether the file is there. If it is
    /// not, or if another write of the same part came first, the reservation
    /// is given back.
    pub fn put(&mut self, hash: ContentHash, size: u64, written: bool, now_us: u64)
        requires
            old(self)@.wf(),
            total_size(old(self)@.entries) + size <= old(self)@.current_bytes,
        ensures
            final(self)@.wf(),
            final(self)@ == old(self)@.after_write(hash@, size, written, now_us),
    {
        if !written || index_get(&self.entries, &hash.0).is_some() {
            self.current_bytes = self.current_bytes - size;
            return;
        }
        proof {
            lemma_total_insert(self@.entries, hash@, (size, now_us));
        }
        index_insert(&mut self.entries, hash.0, (size, now_us));
    }

    /// Reserves `size` bytes, evicting as much as that needs.
    fn reserve(&mut self, size: u64) -> (res: (bool, Vec<ContentHash>))
        requires
            old(self)@.wf(),
            old(self)@.current_bytes + size <= u64::MAX,
            size <= old(self)@.budget_bytes,
        ensures
            final(self)@.wf(),
            reserves(old(self)@, size, res.0, hashes_view(res.1@), final(self)@),
    {
        let ghost before = self@;
        if self.current_bytes + size <= self.budget_bytes {
            self.current_bytes = self.current_bytes + size;
            let none: Vec<ContentHash> = Vec::new();
            assert(hashes_view(none@) =~= Seq::<Seq<u8>>::empty());
            return (true, none);
        }
        let needed = self.current_bytes + size - self.budget_bytes;
        let (enough, victims) = self.evict_at_least(needed);
        proof {
            lemma_without(before.entries, hashes_view(victims@));
        }
        if enough {
            self.current_bytes = self.current_bytes + size;
        }
        (enough, victims)
    }

    /// Evicts the least recently used entries until `bytes_needed` bytes are
    /// free. The result says whether that succeeded, and which files to
    /// remove.
    #[verifier::spinoff_prover]
    #[verifier::rlimit(80)]
    pub fn evict_at_least(&mut self, bytes_needed: u64) -> (res: (bool, Vec<ContentHash>))
        requires
            old(self)@.wf(),
        ensures
            final(self)@.wf(),
            evicts(old(self)@, bytes_needed, hashes_view(res.1@), final(self)@),
            res.0 == (freed_by(old(self)@.entries, hashes_view(res.1@)) >= bytes_needed),
    {
        let ghost before = self@;
        let candidates = index_entries(&self.entries);
        let mut ages: Vec<u64> = Vec::new();
        let mut c: usize = 0;
        while c < candidates.len()
            invariant
                c <= candidates@.len(),
                ages@.len() == c,
                forall|k: int| 0 <= k < c ==> (#[trigger] ages@[k]) == candidates@[k].1.1,
            decreases candidates.len() - c,
        {
            ages.push(candidates[c].1.1);
            c = c + 1;
        }
        let order = sort_positions(&ages);
        let mut victims: Vec<ContentHash> = Vec::new();
        let mut freed: u64 = 0;
        let mut i: usize = 0;
        proof {
            assert(hashes_view(victims@) =~= Seq::<Seq<u8>>::empty());
            lemma_without(before.entries, hashes_view(victims@));
        }
        while i < order.len() && freed < bytes_needed
            invariant
                before.wf(),
                lists_index(before.entries, candidates@),
                ages@.len() == candidates@.len(),
                forall|k: int|
                    0 <= k < candidates@.len() ==> (#[trigger] ages@[k]) == candidates@[k].1.1,
                crate::order::is_sorted_order(ages@, order@),
                crate::order::holds_positions(order@, 0, ages@.len() as int),
                i <= order@.len(),
                victims@.len() == i,
                forall|k: int|
                    0 <= k < i ==> (#[trigger] victims@[k])@ == candidates@[order@[k] as int].0@,
                freed == freed_by(before.entries, hashes_view(victims@)),
                i > 0 ==> freed_by(before.entries, hashes_view(victims@).drop_last())
                    < bytes_needed,
                hashes_view(victims@).no_duplicates(),
                forall|k: int|
                    0 <= k < i ==> before.entries.contains_key(
                        #[trigger] hashes_view(victims@)[k],
                    ),
                self@ == (CacheView {
                    entries: without(before.entries, hashes_view(victims@)),
                    current_bytes: (before.current_bytes - freed) as u64,
                    n_evictions: wrapped_sum(before.n_evictions, i as nat),
                    ..before
                }),
                total_size(without(before.entries, hashes_view(victims@))) + freed == total_size(
                    before.entries,
                ),
            decreases order.len() - i,
        {
            let at = order[i];
            let (key, (size, _)) = candidates[at];
            let ghost old_victims = hashes_view(victims@);
            proof {
                assert forall|k: int| 0 <= k < old_victims.len() implies (
                #[trigger] old_victims[k]) != key@ by {
                    assert(comes_before(ages@, order@[k] as int, order@[i as int] as int));
                    assert(order@[k] != at);
                }
                assert(!old_victims.contains(key@));
                lemma_without(before.entries, old_victims);
                assert(before.entries.contains_key(key@));
            }
            if index_remove(&mut self.entries, &key).is_some() {
                victims.push(ContentHash(key));
                let ghost new_victims = hashes_view(victims@);
                proof {
                    assert(new_victims =~= old_victims.push(key@));
                    assert(new_victims.drop_last() =~= old_victims);
                    assert forall|a: int, b: int|
                        0 <= a < new_victims.len() && 0 <= b < new_victims.len() && a
                            != b implies new_victims[a] != new_victims[b] by {
                        if a < old_victims.len() && b < old_victims.len() {
                            assert(old_victims[a] != old_victims[b]);
                        }
                    }
                    lemma_without(before.entries, new_victims);
                }
                self.current_bytes = self.current_bytes - size;
                self.n_evictions = bump(self.n_evictions);
                freed = freed + size;
            }
            i = i + 1;
        }
        proof {
            let gone = hashes_view(victims@);
            lemma_without(before.entries, gone);
            assert forall|a: int, b: int| 0 <= a < b < gone.len() implies before.entries[
            #[trigger] gone[a]].1 <= before.entries[#[trigger] gone[b]].1 by {
                assert(comes_before(ages@, order@[a] as int, order@[b] as int));
            }
            assert forall|a: int, key: Seq<u8>|
                0 <= a < gone.len() && without(before.entries, gone).contains_key(
                    key,
                ) implies before.entries[#[trigger] gone[a]].1 <= (
            #[trigger] before.entries[key]).1 by {
                let k = choose|k: int|
                    0 <= k < candidates@.len() && (#[trigger] candidates@[k]).0@ == key;
                assert(holds_position(order@, k));
                let p = choose|p: int| 0 <= p < order@.len() && (#[trigger] order@[p]) == k;
                if p < i {
                    assert(gone[p] == key);
                    assert(gone.contains(key));
                }
                assert(comes_before(ages@, order@[a] as int, order@[p] as int));
            }
            if freed < bytes_needed {
                let left = without(before.entries, gone);
                assert forall|key: Seq<u8>| !left.contains_key(key) by {
                    if left.contains_key(key) {
                        let k = choose|k: int|
                            0 <= k < candidates@.len() && (#[trigger] candidates@[k]).0@ == key;
                        assert(holds_position(order@, k));
                        let p = choose|p: int|
                            0 <= p < order@.len() && (#[trigger] order@[p]) == k;
                        assert(gone[p] == key);
                        assert(gone.contains(key));
                    }
                }
                assert(left.dom() =~= Set::<Seq<u8>>::empty());
            }
        }
        (freed >= bytes_needed, victims)
    }

    /// Drops an entry and gives its bytes back; the file stays.
    pub fn drop_entry(&mut self, hash: &ContentHash)
        requires
            old(self)@.wf(),
        ensures
            final(self)@.wf(),
            final(self)@ == old(self)@.dropped(hash@),
    {
        let ghost before = self@;
        proof {
            if before.entries.contains_key(hash@) {
                lemma_total_remove(before.entries, hash@);
            } else {
                assert(before.entries.remove(hash@) =~= before.entries);
            }
        }
        if let Some((size, _)) = index_remove(&mut self.entries, &hash.0) {
            self.current_bytes = self.current_bytes - size;
        }
    }

    /// The load of the cache.
    pub fn stats(&self) -> (stats: ManifestCacheStats)
        requires
            self@.wf(),
        ensures
            stats.n_entries == self@.entries.dom().len(),
            stats.current_bytes == self@.current_bytes,
            stats.budget_bytes == self@.budget_bytes,
            stats.n_hits == self@.n_hits,
            stats.n_misses == self@.n_misses,
            stats.n_evictions == self@.n_evictions,
    {
        ManifestCacheStats {
            n_entries: index_len(&self.entries) as u64,
            current_bytes: self.current_bytes,
            budget_bytes: self.budget_bytes,
            n_hits: self.n_hits,
            n_misses: self.n_misses,
            n_evictions: self.n_evictions,
        }
    }

    /// A description of the cache with its files in `cache_root`.
    pub fn debug_text(&self, cache_root: &str) -> (text: String)
        requires
            self@.wf(),
        ensures
            text@ == "ManifestDiskCache { cache_root: "@ + quoted_chars(cache_root@)
                + ", budget_bytes: "@ + decimal(self@.budget_bytes as nat) + ", current_bytes: "@
                + decimal(self@.current_bytes as nat) + ", n_entries: "@ + decimal(
                self@.entries.dom().len(),
            ) + " }"@,
    {
        let mut text = "ManifestDiskCache { cache_root: ".to_owned();
        let root = quoted(cache_root);
        text.append(&root);
        text.append(", budget_bytes: ");
        push_decimal(&mut text, self.budget_bytes);
        text.append(", current_bytes: ");
        push_decimal(&mut text, self.current_bytes);
        text.append(", n_entries: ");
        push_decimal(&mut text, index_len(&self.entries) as u64);
        text.append(" }");
        text
    }
}

/// Does evicting `victims` for `needed` bytes lead from `before` to `after`?
pub open spec fn evicts(
    before: CacheView,
    needed: u64,
    victims: Seq<Seq<u8>>,
    after: CacheView,
) -> bool {
    &&& is_eviction(before.entries, needed, victims)
    &&& after == (CacheView {
        entries: without(before.entries, victims),
        current_bytes: (before.current_bytes - freed_by(before.entries, victims)) as u64,
        n_evictions: wrapped_sum(before.n_evictions, victims.len()),
        ..before
    })
}

/// Does reserving `size` bytes lead from `before` to `after`? Nothing is
/// evicted if there is room; otherwise what is missing is, and the bytes are
/// reserved if that was enough.
pub open spec fn reserves(
    before: CacheView,
    size: u64,
    reserved: bool,
    victims: Seq<Seq<u8>>,
    after: CacheView,
) -> bool {
    if before.current_bytes + size <= before.budget_bytes {
        &&& reserved
        &&& victims.len() == 0
        &&& after == (CacheView { current_bytes: (before.current_bytes + size) as u64, ..before })
    } else {
        let needed = (before.current_bytes + size - before.budget_bytes) as u64;
        let freed = freed_by(before.entries, victims);
        &&& is_eviction(before.entries, needed, victims)
        &&& reserved <==> freed >= needed
        &&& after == (CacheView {
            entries: without(before.entries, victims),
            current_bytes: if reserved {
                (before.current_bytes - freed + size) as u64
            } else {
                (before.current_bytes - freed) as u64
            },
            n_evictions: wrapped_sum(before.n_evictions, victims.len()),
            ..before
        })
    }
}

/// A reservation that succeeds keeps the cache within its budget, and covers
/// the reserved bytes besides the entries.
pub proof fn lemma_reserved_fits_budget(
    before: CacheView,
    size: u64,
    victims: Seq<Seq<u8>>,
    after: CacheView,
)
    requires
        before.wf(),
        size <= before.budget_bytes,
        before.current_bytes + size <= u64::MAX,
        reserves(before, size, true, victims, after),
    ensures
        after.current_bytes <= after.budget_bytes,
        total_size(after.entries) + size <= after.current_bytes,
{
    if before.current_bytes + size > before.budget_bytes {
        lemma_without(before.entries, victims);
    }
}

/// If nothing but the entries is accounted for, a part that fits the budget
/// can always be reserved.
pub proof fn lemma_reservation_succeeds(
    before: CacheView,
    size: u64,
    reserved: bool,
    victims: Seq<Seq<u8>>,
    after: CacheView,
)
    requires
        before.wf(),
        before.current_bytes == total_size(before.entries),
        size <= before.budget_bytes,
        before.current_bytes + size <= u64::MAX,
        reserves(before, size, reserved, victims, after),
    ensures
        reserved,
{
    if before.current_bytes + size > before.budget_bytes {
        let needed = (before.current_bytes + size - before.budget_bytes) as u64;
        lemma_without(before.entries, victims);
        if freed_by(before.entries, victims) < needed {
            let left = without(before.entries, victims);
            assert(left.dom().len() == 0);
            assert(total_size(left) == 0);
        }
    }
}

/// A write from a settled cache leads to a settled cache: the part that fits
/// the budget is reserved; once its file is there it is an entry, and the
/// cache is within its budget; and if the file could not be written, nothing
/// stays reserved.
pub proof fn lemma_write_settles(
    before: CacheView,
    hash: Seq<u8>,
    size: u64,
    reserved: bool,
    victims: Seq<Seq<u8>>,
    during: CacheView,
    written: bool,
    now_us: u64,
)
    requires
        before.settled(),
        !before.entries.contains_key(hash),
        size <= before.budget_bytes,
        before.current_bytes + size <= u64::MAX,
        reserves(before, size, reserved, victims, during),
    ensures
        reserved,
        ({
            let after = during.after_write(hash, size, written, now_us);
            &&& after.settled()
            &&& after.current_bytes <= after.budget_bytes
            &&& written ==> after.entries.contains_key(hash) && after.entries[hash] == (
                size,
                now_us,
            )
            &&& after.entries.remove(hash) == without(before.entries, victims)
            &&& before.current_bytes + size <= before.budget_bytes ==> victims.len() == 0
            &&& before.current_bytes + size > before.budget_bytes ==> is_eviction(
                before.entries,
                (before.current_bytes + size - before.budget_bytes) as u64,
                victims,
            )
        }),
{
    lemma_reservation_succeeds(before, size, reserved, victims, during);
    lemma_reserved_fits_budget(before, size, victims, during);
    if before.current_bytes + size > before.budget_bytes {
        lemma_without(before.entries, victims);
    }
    let after = during.after_write(hash, size, written, now_us);
    assert(!during.entries.contains_key(hash));
    if written {
        lemma_total_insert(during.entries, hash, (size, now_us));
    }
    assert(after.entries.remove(hash) =~= during.entries);
}

/// A scan of a file that is not an entry yet, a read, and the drop of an entry
/// leave a settled cache settled.
pub proof fn lemma_settled_stays(cache: CacheView, hash: Seq<u8>, size: u64, now_us: u64)
    requires
        cache.settled(),
    ensures
        !cache.entries.contains_key(hash) && cache.current_bytes + size <= u64::MAX
            ==> cache.with_file(hash, size, now_us).settled(),
        cache.touched(hash, now_us).settled(),
        cache.dropped(hash).settled(),
{
    if cache.entries.contains_key(hash) {
        lemma_total_replace(cache.entries, hash, (cache.entries[hash].0, now_us));
        lemma_total_remove(cache.entries, hash);
    } else {
        lemma_total_insert(cache.entries, hash, (size, now_us));
        assert(cache.entries.remove(hash) =~= cache.entries);
    }
}

// ---- What each operation does to the entries --------------------------------

/// No entries have no size.
pub proof fn lemma_total_of_none(entries: Entries)
    requires
        forall|key: Seq<u8>| !#[trigger] entries.contains_key(key),
    ensures
        total_size(entries) == 0,
{
    assert(entries.dom() =~= Set::<Seq<u8>>::empty());
}

/// A part that is cached or being written is found again under its name: the
/// one is registered with its digest, the other is removed.
pub proof fn lemma_names_are_told_apart(
    hash: ContentHash,
    name: String,
    tmp: String,
    found: &str,
    action: ScanAction,
)
    requires
        call_ensures(cache_filename, (&hash,), name),
        call_ensures(tmp_filename, (&hash,), tmp),
        call_ensures(scan_file, (found,), action),
    ensures
        found@ == name@ ==> action is Register && action->Register_0@ == hash@,
        found@ == tmp@ ==> action == ScanAction::RemoveTmp,
        action matches ScanAction::Register(other) ==> found@.len() == name@.len(),
{
    reveal_strlit("part-");
    reveal_strlit(".avro.zst");
    reveal_strlit(".tmp");
    assert(hash@.len() == 32);
    crate::text::lemma_hex_reads_back(hash@);
    lemma_filename_reads_back(hash@);
    let full = filename_chars(hash@);
    if found@ == tmp@ {
        assert(found@.skip(found@.len() - 4) =~= ".tmp"@);
    }
    if found@ == name@ {
        let tail = found@.skip(found@.len() - 4);
        assert(tail[0] == found@[found@.len() - 4]);
        assert(".avro.zst"@[5] == '.');
        assert(found@[found@.len() - 4] == ".avro.zst"@[5]);
        assert(tail[1] == found@[found@.len() - 3]);
        assert(found@[found@.len() - 3] == ".avro.zst"@[6]);
        assert(".avro.zst"@[6] == 'z');
        assert(".tmp"@[1] == 't');
    }
}

/// A read gives the bytes of the file exactly if they have the digest that was
/// asked for. It then counts as an access, and changes nothing else; otherwise
/// the entry is dropped with its size, and no other is. A file with other bytes
/// is to be removed.
pub proof fn lemma_read_gives_only_the_right_bytes(
    cache: &mut ManifestDiskCache,
    hash: ContentHash,
    read: Option<Vec<u8>>,
    now_us: u64,
    outcome: GetOutcome,
    other: Seq<u8>,
)
    requires
        call_ensures(ManifestDiskCache::get, (cache, &hash, read, now_us), outcome),
        old(cache)@.wf(),
    ensures
        ({
            let (before, after) = (old(cache)@, final(cache)@);
            let right = read is Some && blake3_digest(read->0@) == hash@;
            &&& outcome.bytes is Some <==> right
            &&& right ==> outcome.bytes->0@ == read->0@
            &&& outcome.remove_file <==> read is Some && !right
            &&& other != hash@ ==> (after.entries.contains_key(other)
                <==> before.entries.contains_key(other))
            &&& other != hash@ && before.entries.contains_key(other) ==> after.entries[other]
                == before.entries[other]
            &&& right ==> (after.entries.contains_key(hash@) <==> before.entries.contains_key(
                hash@,
            )) && after.current_bytes == before.current_bytes && after.n_misses
                == before.n_misses && (before.n_hits < u64::MAX ==> after.n_hits
                == before.n_hits + 1)
            &&& right && before.entries.contains_key(hash@) ==> after.entries[hash@] == (
                before.entries[hash@].0,
                now_us,
            )
            &&& !right ==> !after.entries.contains_key(hash@) && after.n_hits == before.n_hits && (
            before.n_misses < u64::MAX ==> after.n_misses == before.n_misses + 1)
            &&& !right && before.entries.contains_key(hash@) ==> after.current_bytes
                == before.current_bytes - before.entries[hash@].0
            &&& !right && !before.entries.contains_key(hash@) ==> after.current_bytes
                == before.current_bytes
            &&& after.budget_bytes == before.budget_bytes
        }),
{
    let before = old(cache)@;
    if before.entries.contains_key(hash@) {
        lemma_total_remove(before.entries, hash@);
    }
}

/// A write that finished makes an entry of the part with its size, unless there
/// is one; a write that failed, or came second, gives its bytes back. No other
/// entry changes.
pub proof fn lemma_write_makes_an_entry(
    cache: &mut ManifestDiskCache,
    hash: ContentHash,
    size: u64,
    written: bool,
    now_us: u64,
    other: Seq<u8>,
)
    requires
        call_ensures(ManifestDiskCache::put, (cache, hash, size, written, now_us), ()),
        old(cache)@.wf(),
        total_size(old(cache)@.entries) + size <= old(cache)@.current_bytes,
    ensures
        ({
            let (before, after) = (old(cache)@, final(cache)@);
            let new = written && !before.entries.contains_key(hash@);
            &&& after.entries.contains_key(hash@) <==> written || before.entries.contains_key(
                hash@,
            )
            &&& new ==> after.entries[hash@] == (size, now_us) && after.current_bytes
                == before.current_bytes
            &&& !new ==> after.current_bytes == before.current_bytes - size
            &&& before.entries.contains_key(hash@) ==> after.entries[hash@]
                == before.entries[hash@]
            &&& other != hash@ ==> (after.entries.contains_key(other)
                <==> before.entries.contains_key(other))
            &&& other != hash@ && before.entries.contains_key(other) ==> after.entries[other]
                == before.entries[other]
            &&& after.budget_bytes == before.budget_bytes
        }),
{
}

/// The entries that an eviction leaves are those that are no victims, as they
/// were.
pub proof fn lemma_without_is_the_rest(entries: Entries, victims: Seq<Seq<u8>>, key: Seq<u8>)
    ensures
        without(entries, victims).contains_key(key) <==> entries.contains_key(key)
            && !victims.contains(key),
        without(entries, victims).contains_key(key) ==> without(entries, victims)[key]
            == entries[key],
    decreases victims.len(),
{
    if victims.len() > 0 {
        let rest = victims.drop_last();
        lemma_without_is_the_rest(entries, rest, key);
        if rest.contains(key) {
            let i = choose|i: int| 0 <= i < rest.len() && rest[i] == key;
            assert(victims[i] == key);
        }
        if victims.contains(key) {
            let i = choose|i: int| 0 <= i < victims.len() && victims[i] == key;
            if i < rest.len() {
                assert(rest[i] == key);
            }
        }
        assert(victims[victims.len() - 1] == victims.last());
    }
}

/// What victims free is their sizes, added up.
pub proof fn lemma_freed_adds_up(entries: Entries, victims: Seq<Seq<u8>>)
    ensures
        freed_by(entries, victims) as int == victims.fold_left(
            0int,
            |n: int, key: Seq<u8>| n + entries[key].0,
        ),
    decreases victims.len(),
{
    if victims.len() > 0 {
        lemma_freed_adds_up(entries, victims.drop_last());
    }
}

/// A write is begun exactly if the part is not cached and fits the whole
/// budget, and enough bytes are free or can be freed. The victims are entries,
/// used no later than any that stays, and no more than are needed; an entry
/// stays exactly if it is no victim. Where there is room nothing goes.
pub proof fn lemma_write_makes_room(
    cache: &mut ManifestDiskCache,
    hash: ContentHash,
    size: u64,
    plan: PutPlan,
    key: Seq<u8>,
)
    requires
        call_ensures(ManifestDiskCache::begin_put, (cache, &hash, size), plan),
        old(cache)@.wf(),
        !old(cache)@.entries.contains_key(hash@) && size <= old(cache)@.budget_bytes
            ==> old(cache)@.current_bytes + size <= u64::MAX,
    ensures
        ({
            let (before, after) = (old(cache)@, final(cache)@);
            let victims = hashes_view(plan.victims@);
            let freed = victims.fold_left(0int, |n: int, k: Seq<u8>| n + before.entries[k].0);
            &&& after.entries.contains_key(key) <==> before.entries.contains_key(key)
                && !victims.contains(key)
            &&& after.entries.contains_key(key) ==> after.entries[key] == before.entries[key]
            &&& victims.no_duplicates()
            &&& forall|i: int|
                0 <= i < victims.len() ==> before.entries.contains_key(#[trigger] victims[i])
            &&& forall|i: int|
                0 <= i < victims.len() && after.entries.contains_key(key) ==> before.entries[
                #[trigger] victims[i]].1 <= before.entries[key].1
            &&& plan.write ==> !before.entries.contains_key(hash@) && size <= before.budget_bytes
            &&& plan.write ==> after.current_bytes == before.current_bytes - freed + size
                && after.current_bytes <= after.budget_bytes
            &&& !plan.write ==> after.current_bytes == before.current_bytes - freed
            &&& before.current_bytes + size <= before.budget_bytes ==> victims.len() == 0
                && plan.write == !before.entries.contains_key(hash@)
            &&& before.settled() ==> plan.write == (!before.entries.contains_key(hash@) && size
                <= before.budget_bytes)
            &&& victims.len() > 0 ==> before.current_bytes - victims.drop_last().fold_left(
                0int,
                |n: int, k: Seq<u8>| n + before.entries[k].0,
            ) + size > before.budget_bytes
            &&& after.budget_bytes == before.budget_bytes
        }),
{
    let (before, after) = (old(cache)@, final(cache)@);
    let victims = hashes_view(plan.victims@);
    lemma_freed_adds_up(before.entries, victims);
    if victims.len() > 0 {
        lemma_freed_adds_up(before.entries, victims.drop_last());
    }
    lemma_without_is_the_rest(before.entries, victims, key);
    if !before.entries.contains_key(hash@) && size <= before.budget_bytes {
        if before.current_bytes + size > before.budget_bytes {
            lemma_without(before.entries, victims);
        }
        if plan.write {
            lemma_reserved_fits_budget(before, size, victims, after);
        }
        if before.settled() {
            lemma_reservation_succeeds(before, size, plan.write, victims, after);
        }
    }
}

/// An eviction lets go of entries, used no later than any that stays, until
/// enough is free: it says so exactly if the sizes of the victims, added up, are
/// as much as was needed; without the last of them they are not; and if they are
/// not, no entry stays.
pub proof fn lemma_eviction_frees_enough(
    cache: &mut ManifestDiskCache,
    needed: u64,
    res: (bool, Vec<ContentHash>),
    key: Seq<u8>,
)
    requires
        call_ensures(ManifestDiskCache::evict_at_least, (cache, needed), res),
        old(cache)@.wf(),
    ensures
        ({
            let (before, after) = (old(cache)@, final(cache)@);
            let victims = hashes_view(res.1@);
            let freed = victims.fold_left(0int, |n: int, k: Seq<u8>| n + before.entries[k].0);
            &&& res.0 <==> freed >= needed
            &&& !res.0 ==> !after.entries.contains_key(key)
            &&& victims.len() > 0 ==> victims.drop_last().fold_left(
                0int,
                |n: int, k: Seq<u8>| n + before.entries[k].0,
            ) < needed
            &&& after.entries.contains_key(key) <==> before.entries.contains_key(key)
                && !victims.contains(key)
            &&& after.entries.contains_key(key) ==> after.entries[key] == before.entries[key]
            &&& after.current_bytes == before.current_bytes - freed
            &&& victims.no_duplicates()
            &&& forall|i: int|
                0 <= i < victims.len() ==> before.entries.contains_key(#[trigger] victims[i])
            &&& forall|i: int|
                0 <= i < victims.len() && after.entries.contains_key(key) ==> before.entries[
                #[trigger] victims[i]].1 <= before.entries[key].1
        }),
{
    let (before, after) = (old(cache)@, final(cache)@);
    let victims = hashes_view(res.1@);
    lemma_freed_adds_up(before.entries, victims);
    if victims.len() > 0 {
        lemma_freed_adds_up(before.entries, victims.drop_last());
    }
    lemma_without_is_the_rest(before.entries, victims, key);
    lemma_without(before.entries, victims);
}

/// A file that is found becomes an entry with its size, last used now; an entry
/// that is dropped is gone with its size; and a read begins exactly if there is
/// an entry. No other entry changes.
pub proof fn lemma_entries_come_and_go(
    found: &mut ManifestDiskCache,
    dropped: &mut ManifestDiskCache,
    asked: &mut ManifestDiskCache,
    hash: ContentHash,
    size: u64,
    now_us: u64,
    cached: bool,
    other: Seq<u8>,
)
    requires
        call_ensures(ManifestDiskCache::scan_existing, (found, hash, size, now_us), ()),
        call_ensures(ManifestDiskCache::drop_entry, (dropped, &hash), ()),
        call_ensures(ManifestDiskCache::begin_get, (asked, &hash), cached),
        old(found)@.wf(),
        old(found)@.current_bytes + size <= u64::MAX,
        old(dropped)@.wf(),
    ensures
        final(found)@.entries.contains_key(hash@),
        final(found)@.entries[hash@] == (size, now_us),
        final(found)@.current_bytes == old(found)@.current_bytes + size,
        other != hash@ ==> (final(found)@.entries.contains_key(other)
            <==> old(found)@.entries.contains_key(other)) && final(found)@.entries[other]
            == old(found)@.entries[other],
        !final(dropped)@.entries.contains_key(hash@),
        old(dropped)@.entries.contains_key(hash@) ==> final(dropped)@.current_bytes == old(
            dropped,
        )@.current_bytes - old(dropped)@.entries[hash@].0,
        !old(dropped)@.entries.contains_key(hash@) ==> final(dropped)@.current_bytes == old(
            dropped,
        )@.current_bytes,
        other != hash@ ==> (final(dropped)@.entries.contains_key(other)
            <==> old(dropped)@.entries.contains_key(other)),
        other != hash@ && old(dropped)@.entries.contains_key(other)
            ==> final(dropped)@.entries[other] == old(dropped)@.entries[other],
        cached <==> old(asked)@.entries.contains_key(hash@),
        final(asked)@.entries == old(asked)@.entries,
        cached ==> final(asked)@.n_misses == old(asked)@.n_misses,
        !cached && old(asked)@.n_misses < u64::MAX ==> final(asked)@.n_misses == old(
            asked,
        )@.n_misses + 1,
{
    if old(dropped)@.entries.contains_key(hash@) {
        lemma_total_remove(old(dropped)@.entries, hash@);
    }
}

} // verus!
