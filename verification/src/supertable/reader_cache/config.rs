//! Settings of the disk cache, and the policy that picks what to evict.

use std::collections::HashSet;
use vstd::prelude::*;
use vstd::string::StringExecFns;
use crate::order::{holds_positions, lemma_sorted_order, sort_positions, sorted_order};
use crate::supertable::manifest::part::SuperfileUri;
use crate::text::{decimal, push_decimal, quoted, quoted_chars};

verus! {

broadcast use vstd::std_specs::hash::group_hash_axioms;

/// How a cache miss is served.
#[derive(Debug, Clone, Copy, PartialEq, Eq, Structural)]
pub enum ColdFetchMode {
    /// Fetch the whole file in parallel ranges; each response serves the
    /// caller and fills the cache.
    HybridWithPrefetch,
    /// Fetch the ranges that the query reads, and fill nothing.
    RangeOnly,
    /// Serve the query from ranges at once, and fill the cache in the
    /// background afterwards.
    LazyForegroundWithBackgroundFill,
}

impl ColdFetchMode {
    /// The name of the mode.
    pub open spec fn name_spec(self) -> Seq<char> {
        match self {
            ColdFetchMode::HybridWithPrefetch => "HybridWithPrefetch"@,
            ColdFetchMode::RangeOnly => "RangeOnly"@,
            ColdFetchMode::LazyForegroundWithBackgroundFill => {
                "LazyForegroundWithBackgroundFill"@
            },
        }
    }

    /// The name of the mode.
    pub fn name(&self) -> (name: &'static str)
        ensures
            name@ == self.name_spec(),
    {
        match self {
            ColdFetchMode::HybridWithPrefetch => "HybridWithPrefetch",
            ColdFetchMode::RangeOnly => "RangeOnly",
            ColdFetchMode::LazyForegroundWithBackgroundFill => "LazyForegroundWithBackgroundFill",
        }
    }
}

impl Default for ColdFetchMode {
    fn default() -> (mode: Self)
        ensures
            mode == ColdFetchMode::HybridWithPrefetch,
    {
        ColdFetchMode::HybridWithPrefetch
    }
}

/// What a policy knows of a cached file.
#[derive(Debug, Clone, Copy, PartialEq, Eq, Structural)]
pub struct EvictionCandidate {
    pub uri: SuperfileUri,
    pub size_bytes: u64,
    /// Microseconds from the start of the cache to the last access.
    pub last_access_us: u64,
}

/// The candidates that are not pinned, in their order.
pub open spec fn eligible(candidates: Seq<EvictionCandidate>, pinned: Set<u128>) -> Seq<
    EvictionCandidate,
>
    decreases candidates.len(),
{
    if candidates.len() == 0 {
        Seq::empty()
    } else if pinned.contains(candidates.last().uri.0) {
        eligible(candidates.drop_last(), pinned)
    } else {
        eligible(candidates.drop_last(), pinned).push(candidates.last())
    }
}

/// The last accesses of candidates.
pub open spec fn access_times(candidates: Seq<EvictionCandidate>) -> Seq<u64> {
    candidates.map_values(|c: EvictionCandidate| c.last_access_us)
}

/// The candidates, least recently used first; of two with the same last
/// access, the one listed first.
pub open spec fn by_access(candidates: Seq<EvictionCandidate>) -> Seq<EvictionCandidate> {
    sorted_order(access_times(candidates)).map_values(|p: usize| candidates[p as int])
}

/// The sizes of candidates together.
pub open spec fn size_of(candidates: Seq<EvictionCandidate>) -> nat
    decreases candidates.len(),
{
    if candidates.len() == 0 {
        0
    } else {
        size_of(candidates.drop_last()) + candidates.last().size_bytes as nat
    }
}

/// The shortest start of `candidates` whose size is at least `needed`; all of
/// them if none is.
pub open spec fn shortest_prefix(candidates: Seq<EvictionCandidate>, needed: nat) -> Seq<
    EvictionCandidate,
>
    decreases candidates.len(),
{
    if candidates.len() == 0 || size_of(candidates.drop_last()) < needed {
        candidates
    } else {
        shortest_prefix(candidates.drop_last(), needed)
    }
}

/// The URIs of candidates.
pub open spec fn uris_of(candidates: Seq<EvictionCandidate>) -> Seq<SuperfileUri> {
    candidates.map_values(|c: EvictionCandidate| c.uri)
}

/// What the least-recently-used policy evicts to free `needed` bytes: the
/// fewest of the unpinned candidates, oldest first; nothing if all of them
/// are not enough.
pub open spec fn lru_victims(
    candidates: Seq<EvictionCandidate>,
    pinned: Set<u128>,
    needed: u64,
) -> Seq<SuperfileUri> {
    let sorted = by_access(eligible(candidates, pinned));
    if size_of(sorted) < needed {
        Seq::empty()
    } else {
        uris_of(shortest_prefix(sorted, needed as nat))
    }
}

/// Are `at` positions of candidates, each once?
pub open spec fn is_choice(candidates: Seq<EvictionCandidate>, at: Seq<int>) -> bool {
    &&& at.no_duplicates()
    &&& forall|i: int| 0 <= i < at.len() ==> 0 <= #[trigger] at[i] < candidates.len()
}

/// The candidates at the given positions.
pub open spec fn chosen(candidates: Seq<EvictionCandidate>, at: Seq<int>) -> Seq<
    EvictionCandidate,
> {
    at.map_values(|p: int| candidates[p])
}

/// Are `victims` candidates, each taken once, of at least `needed` bytes
/// together?
pub open spec fn frees_enough(
    candidates: Seq<EvictionCandidate>,
    needed: u64,
    victims: Seq<SuperfileUri>,
) -> bool {
    exists|at: Seq<int>| #[trigger]
        is_choice(candidates, at) && uris_of(chosen(candidates, at)) == victims && size_of(
            chosen(candidates, at),
        ) >= needed
}

/// Picks the files to evict when a fetch does not fit the budget.
pub trait CacheEvictionPolicy: Send + Sync {
    /// May the policy answer with `victims`? A policy that promises no more
    /// than this trait leaves it as it is.
    open spec fn picks(
        &self,
        candidates: Seq<EvictionCandidate>,
        pinned: Set<u128>,
        needed: u64,
        victims: Seq<SuperfileUri>,
    ) -> bool {
        true
    }

    /// Picks unpinned candidates of at least `bytes_needed` bytes together,
    /// in the order of eviction; none if there are not enough.
    fn select_for_eviction(
        &self,
        candidates: &[EvictionCandidate],
        pinned: &HashSet<u128>,
        bytes_needed: u64,
    ) -> (victims: Vec<SuperfileUri>)
        ensures
            forall|i: int| 0 <= i < victims@.len() ==> !pinned@.contains((#[trigger] victims@[i]).0),
            victims@.len() > 0 ==> frees_enough(candidates@, bytes_needed, victims@),
            self.picks(candidates@, pinned@, bytes_needed, victims@),
    ;
}

/// Evicts the least recently used files.
#[derive(Debug)]
pub struct LruPolicy {}

proof fn lemma_size_grows(candidates: Seq<EvictionCandidate>, i: int)
    requires
        0 <= i <= candidates.len(),
    ensures
        size_of(candidates.take(i)) <= size_of(candidates),
    decreases candidates.len() - i,
{
    if i < candidates.len() {
        lemma_size_grows(candidates, i + 1);
        assert(candidates.take(i + 1).drop_last() =~= candidates.take(i));
    } else {
        assert(candidates.take(i) =~= candidates);
    }
}

proof fn lemma_shortest_prefix(candidates: Seq<EvictionCandidate>, needed: nat, i: int)
    requires
        0 <= i <= candidates.len(),
        i > 0 ==> size_of(candidates.take(i - 1)) < needed,
        size_of(candidates.take(i)) >= needed,
    ensures
        shortest_prefix(candidates, needed) == candidates.take(i),
    decreases candidates.len(),
{
    if i == candidates.len() {
        assert(candidates.take(i) =~= candidates);
        if i > 0 {
            assert(candidates.drop_last() =~= candidates.take(i - 1));
        }
    } else {
        let first = candidates.drop_last();
        assert(first.take(i) =~= candidates.take(i));
        if i > 0 {
            assert(first.take(i - 1) =~= candidates.take(i - 1));
        }
        lemma_size_grows(first, i);
        lemma_shortest_prefix(first, needed, i);
    }
}

/// The shortest sufficient start is sufficient, and a start.
pub proof fn lemma_shortest_prefix_suffices(candidates: Seq<EvictionCandidate>, needed: nat)
    requires
        size_of(candidates) >= needed,
    ensures
        size_of(shortest_prefix(candidates, needed)) >= needed,
        shortest_prefix(candidates, needed).is_prefix_of(candidates),
        shortest_prefix(candidates, needed).len() > 0 ==> size_of(
            shortest_prefix(candidates, needed).drop_last(),
        ) < needed,
    decreases candidates.len(),
{
    if candidates.len() == 0 || size_of(candidates.drop_last()) < needed {
    } else {
        lemma_shortest_prefix_suffices(candidates.drop_last(), needed);
    }
}

impl LruPolicy {
    /// The policy.
    pub fn new() -> (policy: Self)
        ensures
            policy == (LruPolicy {  }),
    {
        LruPolicy {  }
    }
}

impl Default for LruPolicy {
    fn default() -> (policy: Self)
        ensures
            policy == (LruPolicy {  }),
    {
        LruPolicy::new()
    }
}

impl CacheEvictionPolicy for LruPolicy {
    /// Answers with the least recently used files, and nothing else.
    open spec fn picks(
        &self,
        candidates: Seq<EvictionCandidate>,
        pinned: Set<u128>,
        needed: u64,
        victims: Seq<SuperfileUri>,
    ) -> bool {
        victims == lru_victims(candidates, pinned, needed)
    }

    fn select_for_eviction(
        &self,
        candidates: &[EvictionCandidate],
        pinned: &HashSet<u128>,
        bytes_needed: u64,
    ) -> (victims: Vec<SuperfileUri>)
        ensures
            victims@ == lru_victims(candidates@, pinned@, bytes_needed),
    {
        let mut unpinned: Vec<EvictionCandidate> = Vec::new();
        let mut ages: Vec<u64> = Vec::new();
        let ghost mut from: Seq<int> = Seq::empty();
        let mut c: usize = 0;
        assert(candidates@.take(0) =~= Seq::<EvictionCandidate>::empty());
        while c < candidates.len()
            invariant
                c <= candidates@.len(),
                unpinned@ == eligible(candidates@.take(c as int), pinned@),
                ages@ =~= access_times(unpinned@),
                forall|k: int|
                    0 <= k < unpinned@.len() ==> !pinned@.contains((#[trigger] unpinned@[k]).uri.0),
                from.len() == unpinned@.len(),
                forall|k: int|
                    0 <= k < from.len() ==> 0 <= #[trigger] from[k] < c && candidates@[from[k]]
                        == unpinned@[k],
                from.no_duplicates(),
            decreases candidates.len() - c,
        {
            let candidate = candidates[c];
            assert(candidates@.take(c + 1).drop_last() =~= candidates@.take(c as int));
            if !pinned.contains(&candidate.uri.0) {
                unpinned.push(candidate);
                ages.push(candidate.last_access_us);
                proof {
                    from = from.push(c as int);
                }
            }
            c = c + 1;
        }
        assert(candidates@.take(candidates@.len() as int) =~= candidates@);
        let order = sort_positions(&ages);
        let ghost sorted = by_access(unpinned@);
        let mut victims: Vec<SuperfileUri> = Vec::new();
        let mut freed: u64 = 0;
        let mut i: usize = 0;
        assert(sorted.take(0) =~= Seq::<EvictionCandidate>::empty());
        while i < order.len() && freed < bytes_needed
            invariant
                sorted == by_access(unpinned@),
                ages@ == access_times(unpinned@),
                order@ == sorted_order(ages@),
                holds_positions(order@, 0, ages@.len() as int),
                ages@.len() == unpinned@.len(),
                forall|k: int|
                    0 <= k < unpinned@.len() ==> !pinned@.contains((#[trigger] unpinned@[k]).uri.0),
                forall|k: int|
                    0 <= k < victims@.len() ==> !pinned@.contains((#[trigger] victims@[k]).0),
                i <= order@.len(),
                victims@ == uris_of(sorted.take(i as int)),
                freed as nat == size_of(sorted.take(i as int)) || (freed == u64::MAX && size_of(
                    sorted.take(i as int),
                ) >= u64::MAX),
                i > 0 ==> size_of(sorted.take(i - 1)) < bytes_needed,
            decreases order.len() - i,
        {
            let candidate = unpinned[order[i]];
            proof {
                assert(sorted.take(i + 1).drop_last() =~= sorted.take(i as int));
                assert(sorted.take(i + 1).last() == candidate);
            }
            victims.push(candidate.uri);
            freed = freed.saturating_add(candidate.size_bytes);
            i = i + 1;
            assert(victims@ =~= uris_of(sorted.take(i as int)));
        }
        proof {
            if freed < bytes_needed {
                assert(sorted.take(sorted.len() as int) =~= sorted);
            } else {
                lemma_shortest_prefix(sorted, bytes_needed as nat, i as int);
                lemma_size_grows(sorted, i as int);
                lemma_sorted_order(ages@);
                let at = Seq::new(i as nat, |k: int| from[order@[k] as int]);
                assert(chosen(candidates@, at) =~= sorted.take(i as int));
                assert(is_choice(candidates@, at));
            }
        }
        if freed < bytes_needed {
            Vec::new()
        } else {
            victims
        }
    }
}

/// Settings of the disk cache.
pub struct DiskCacheConfig {
    /// Directory of the cached files.
    pub cache_root: String,
    /// Size that the cached files together should not exceed.
    pub disk_budget_bytes: u64,
    /// How a cache miss is served.
    pub cold_fetch_mode: ColdFetchMode,
    /// Ranges that a cache miss fetches at a time.
    pub cold_fetch_streams: usize,
    /// Bytes of each of those ranges.
    pub cold_fetch_chunk_bytes: u64,
    /// Background fills at a time.
    pub prefetch_concurrency: usize,
    /// Seconds after which the pages of an idle file are released; 0 for
    /// never.
    pub mmap_cold_threshold_secs: u64,
    /// Seconds between two looks for idle files.
    pub mmap_sweep_interval_secs: u64,
    /// Picks the files to evict.
    pub eviction: Box<dyn CacheEvictionPolicy>,
    /// Are checksums verified when a file is opened?
    pub verify_crc_on_open: bool,
}

impl DiskCacheConfig {
    /// The default settings for a cache in `cache_root`; the least recently
    /// used files are evicted.
    pub fn with_cache_root(cache_root: String) -> (config: Self)
        ensures
            config.cache_root == cache_root,
            config.disk_budget_bytes == 10 * 0x4000_0000,
            config.cold_fetch_mode == ColdFetchMode::HybridWithPrefetch,
            config.cold_fetch_streams == 16,
            config.cold_fetch_chunk_bytes == 16 * 0x10_0000,
            config.prefetch_concurrency == 8,
            config.mmap_cold_threshold_secs == 300,
            config.mmap_sweep_interval_secs == 75,
            config.verify_crc_on_open,
            forall|
                candidates: Seq<EvictionCandidate>,
                pinned: Set<u128>,
                needed: u64,
                victims: Seq<SuperfileUri>,
            | #[trigger]
                config.eviction.picks(candidates, pinned, needed, victims) <==> victims
                    == lru_victims(candidates, pinned, needed),
    {
        DiskCacheConfig {
            cache_root,
            disk_budget_bytes: 10 * 0x4000_0000,
            cold_fetch_mode: ColdFetchMode::HybridWithPrefetch,
            cold_fetch_streams: 16,
            cold_fetch_chunk_bytes: 16 * 0x10_0000,
            prefetch_concurrency: 8,
            mmap_cold_threshold_secs: 300,
            mmap_sweep_interval_secs: 75,
            eviction: Box::new(LruPolicy::new()),
            verify_crc_on_open: true,
        }
    }

    /// A description of the settings.
    pub fn debug_text(&self) -> (text: String)
        ensures
            text@ == "DiskCacheConfig { cache_root: "@ + quoted_chars(self.cache_root@)
                + ", disk_budget_bytes: "@ + decimal(self.disk_budget_bytes as nat)
                + ", cold_fetch_mode: "@ + self.cold_fetch_mode.name_spec()
                + ", cold_fetch_streams: "@ + decimal(self.cold_fetch_streams as nat)
                + ", cold_fetch_chunk_bytes: "@ + decimal(self.cold_fetch_chunk_bytes as nat)
                + ", prefetch_concurrency: "@ + decimal(self.prefetch_concurrency as nat)
                + ", mmap_cold_threshold_secs: "@ + decimal(self.mmap_cold_threshold_secs as nat)
                + ", mmap_sweep_interval_secs: "@ + decimal(self.mmap_sweep_interval_secs as nat)
                + ", eviction: \"<dyn CacheEvictionPolicy>\" }"@,
    {
        let mut text = "DiskCacheConfig { cache_root: ".to_owned();
        let root = quoted(&self.cache_root);
        text.append(&root);
        text.append(", disk_budget_bytes: ");
        push_decimal(&mut text, self.disk_budget_bytes);
        text.append(", cold_fetch_mode: ");
        text.append(self.cold_fetch_mode.name());
        text.append(", cold_fetch_streams: ");
        push_decimal(&mut text, self.cold_fetch_streams as u64);
        text.append(", cold_fetch_chunk_bytes: ");
        push_decimal(&mut text, self.cold_fetch_chunk_bytes);
        text.append(", prefetch_concurrency: ");
        push_decimal(&mut text, self.prefetch_concurrency as u64);
        text.append(", mmap_cold_threshold_secs: ");
        push_decimal(&mut text, self.mmap_cold_threshold_secs);
        text.append(", mmap_sweep_interval_secs: ");
        push_decimal(&mut text, self.mmap_sweep_interval_secs);
        text.append(", eviction: \"<dyn CacheEvictionPolicy>\" }");
        text
    }
}

// ---- What the least-recently-used policy picks ------------------------------

/// The candidates that may go are those that are not pinned, in their order.
pub proof fn lemma_eligible_are_unpinned(candidates: Seq<EvictionCandidate>, pinned: Set<u128>)
    ensures
        eligible(candidates, pinned) == candidates.filter(
            |c: EvictionCandidate| !pinned.contains(c.uri.0),
        ),
    decreases candidates.len(),
{
    reveal(Seq::filter);
    if candidates.len() > 0 {
        lemma_eligible_are_unpinned(candidates.drop_last(), pinned);
    }
}

/// The size of candidates is their sizes, added up.
pub proof fn lemma_size_adds_up(candidates: Seq<EvictionCandidate>, candidate: EvictionCandidate)
    ensures
        size_of(Seq::empty()) == 0,
        size_of(candidates.push(candidate)) == size_of(candidates) + candidate.size_bytes,
{
    assert(candidates.push(candidate).drop_last() =~= candidates);
}

proof fn lemma_size_by_order(
    unpinned: Seq<EvictionCandidate>,
    order: Seq<usize>,
    n: int,
    plus: spec_fn(int, usize) -> int,
)
    requires
        0 <= n <= order.len(),
        forall|s: int, p: usize| #[trigger] plus(s, p) == s + unpinned[p as int].size_bytes,
    ensures
        size_of(order.map_values(|p: usize| unpinned[p as int]).take(n)) == order.take(
            n,
        ).fold_left(0int, plus),
    decreases n,
{
    let sorted = order.map_values(|p: usize| unpinned[p as int]);
    if n > 0 {
        lemma_size_by_order(unpinned, order, n - 1, plus);
        assert(sorted.take(n).drop_last() =~= sorted.take(n - 1));
        assert(order.take(n).drop_last() =~= order.take(n - 1));
        assert(sorted.take(n).last() == unpinned[order[n - 1] as int]);
    } else {
        assert(sorted.take(0) =~= Seq::empty());
        assert(order.take(0) =~= Seq::empty());
    }
}

/// Of the candidates that are not pinned, from the one that was used longest
/// ago on, as many go as are needed and no more: together they free enough,
/// and without the last of them they would not. If all of them are not enough,
/// none goes.
pub proof fn lemma_oldest_go_until_enough(
    policy: LruPolicy,
    candidates: &[EvictionCandidate],
    pinned: HashSet<u128>,
    needed: u64,
    victims: Vec<SuperfileUri>,
)
    requires
        call_ensures(
            LruPolicy::select_for_eviction,
            (&policy, candidates, &pinned, needed),
            victims,
        ),
        candidates@.len() <= usize::MAX,
    ensures
        ({
            let unpinned = candidates@.filter(
                |c: EvictionCandidate| !pinned@.contains(c.uri.0),
            );
            exists|order: Seq<usize>|
                {
                    let freed = |n: int|
                        order.take(n).fold_left(
                            0int,
                            |s: int, p: usize| s + unpinned[p as int].size_bytes,
                        );
                    &&& #[trigger] order.no_duplicates()
                    &&& order.len() == unpinned.len()
                    &&& forall|i: int|
                        0 <= i < order.len() ==> 0 <= (#[trigger] order[i]) < unpinned.len()
                    &&& forall|i: int, j: int|
                        0 <= i < j < order.len() ==> unpinned[(
                        #[trigger] order[i]) as int].last_access_us <= unpinned[(
                        #[trigger] order[j]) as int].last_access_us
                    &&& victims@.len() <= order.len()
                    &&& forall|i: int|
                        0 <= i < victims@.len() ==> #[trigger] victims@[i]
                            == unpinned[order[i] as int].uri
                    &&& freed(order.len() as int) < needed ==> victims@.len() == 0
                    &&& freed(order.len() as int) >= needed ==> freed(victims@.len() as int)
                        >= needed && (victims@.len() > 0 ==> freed(victims@.len() - 1) < needed)
                }
        }),
{
    let unpinned = eligible(candidates@, pinned@);
    lemma_eligible_are_unpinned(candidates@, pinned@);
    candidates@.lemma_filter_len(|c: EvictionCandidate| !pinned@.contains(c.uri.0));
    let keys = access_times(unpinned);
    let order = sorted_order(keys);
    lemma_sorted_order(keys);
    let sorted = by_access(unpinned);
    let plus = |s: int, p: usize| s + unpinned[p as int].size_bytes;
    let freed = |n: int| order.take(n).fold_left(0int, plus);
    let n = order.len() as int;
    lemma_size_by_order(unpinned, order, n, plus);
    assert(sorted.take(n) =~= sorted);
    assert(size_of(sorted) == freed(n));
    assert forall|i: int, j: int| 0 <= i < j < order.len() implies unpinned[(
    #[trigger] order[i]) as int].last_access_us <= unpinned[(
    #[trigger] order[j]) as int].last_access_us by {
        assert(crate::order::comes_before(keys, order[i] as int, order[j] as int));
    }
    assert(victims@ == lru_victims(candidates@, pinned@, needed));
    if size_of(sorted) >= needed {
        lemma_shortest_prefix_suffices(sorted, needed as nat);
        let prefix = shortest_prefix(sorted, needed as nat);
        let m = prefix.len() as int;
        assert(prefix =~= sorted.take(m));
        lemma_size_by_order(unpinned, order, m, plus);
        if m > 0 {
            assert(prefix.drop_last() =~= sorted.take(m - 1));
            lemma_size_by_order(unpinned, order, m - 1, plus);
        }
    }
    assert(order.no_duplicates());
}

} // verus!
