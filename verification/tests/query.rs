use std::collections::HashSet;
use std::sync::Arc;
use infino::storage::StorageError;
use infino::superfile::vector::distance::Metric;
use infino::supertable::error::QueryError;
use infino::supertable::manifest::part::{SuperfileEntry, SuperfileUri};
use infino::supertable::query::match_exec::{
    check_exact_match_arity, check_partition, check_token_match_arity, exact_match_call,
    token_match_call, MatchError, MatchQuery,
};
use infino::supertable::query::superfile_reader::{
    after_disk_cache, after_memory, after_range_only, after_storage, DiskCacheError,
    ReaderCacheError, TierStep,
};
use infino::supertable::query::vector::{
    after_candidates, after_pruning, after_tokens, allow_sets, begin_search, local_allow_sets,
    matching_rows, metric_of, plan_probes, planned_rows, ranks_clusters, top_k_ascending, wave_len,
    AllowSets, Candidate, FilterKind, Probe, SearchStep, VectorFilter,
};
use infino::supertable::query::{BoolMode, SuperfileHit};
use roaring::RoaringBitmap;

// ---- tables of planted vectors -----------------------------------------

/// Clusters of each superfile.
const N_CENT: usize = 4;

/// Enough for every cluster of every superfile.
const ALL_CLUSTERS: usize = 64;

struct Row {
    title: String,
    vector: Vec<f32>,
}

/// Superfiles of as many rows each. Row `i` of a superfile is in its cluster
/// `i % N_CENT`.
struct Table {
    superfiles: Vec<Vec<Row>>,
}

/// Each row has one component set, number `global % dim`, so that a query for
/// one dimension has only one group of close neighbours.
fn one_hot(n_superfiles: usize, n_rows: usize, dim: usize) -> Table {
    let row = |global: usize, i: usize| Row {
        title: format!("doc {i}"),
        vector: (0..dim).map(|d| if d == global % dim { 1.0 } else { 0.0 }).collect(),
    };
    let superfile = |s: usize| (0..n_rows).map(|i| row(s * n_rows + i, i)).collect();
    Table { superfiles: (0..n_superfiles).map(superfile).collect() }
}

fn axis(dim: usize) -> Vec<f32> {
    let mut query = vec![0.0f32; dim];
    query[0] = 1.0;
    query
}

const FILTER_DOCS_PER_SEG: usize = 30;
const FILTER_N_SEG: usize = 4;
const FILTER_DIM: usize = 64;

/// A number in `[-1, 1)` that two indices give.
fn pseudo(global_id: usize, d: usize) -> f32 {
    let mut x = (global_id as u64).wrapping_mul(0x9E37_79B9_7F4A_7C15) ^ (d as u64 + 1);
    x ^= x >> 30;
    x = x.wrapping_mul(0xBF58_476D_1CE4_E5B9);
    x ^= x >> 27;
    x = x.wrapping_mul(0x94D0_49BB_1331_11EB);
    x ^= x >> 31;
    let unit = (x >> 11) as f32 / (1u64 << 53) as f32;
    unit * 2.0 - 1.0
}

/// The vector of a row, of length one.
fn filter_vec(global_id: usize) -> Vec<f32> {
    let mut v: Vec<f32> = (0..FILTER_DIM).map(|d| pseudo(global_id, d)).collect();
    let norm = v.iter().map(|x| x * x).sum::<f32>().sqrt();
    if norm > 0.0 {
        for x in &mut v {
            *x /= norm;
        }
    }
    v
}

/// The token of a row, which has nothing to do with its vector.
fn filter_token(global_id: usize) -> &'static str {
    if global_id % 3 == 0 {
        "beta"
    } else {
        "alpha"
    }
}

fn filter_table() -> Table {
    let row = |global: usize| Row {
        title: format!("row {} {}", global, filter_token(global)),
        vector: filter_vec(global),
    };
    let superfile = |s: usize| {
        let start = s * FILTER_DOCS_PER_SEG;
        (start..start + FILTER_DOCS_PER_SEG).map(row).collect()
    };
    Table { superfiles: (0..FILTER_N_SEG).map(superfile).collect() }
}

fn distance(a: &[f32], b: &[f32]) -> f32 {
    1.0 - a.iter().zip(b).map(|(x, y)| x * y).sum::<f32>()
}

fn uri(superfile: usize) -> SuperfileUri {
    SuperfileUri(100 + superfile as u128)
}

/// The clusters of a superfile with the distances of their centres.
fn clusters(rows: &[Row], query: &[f32]) -> Vec<(u32, u32)> {
    (0..N_CENT)
        .map(|c| {
            let members: Vec<&Row> = rows.iter().skip(c).step_by(N_CENT).collect();
            let centre: Vec<f32> = (0..query.len())
                .map(|d| members.iter().map(|r| r.vector[d]).sum::<f32>() / members.len() as f32)
                .collect();
            (c as u32, distance(query, &centre).to_bits())
        })
        .collect()
}

/// What a search of the planned clusters finds: in each superfile the `k`
/// closest of the admitted rows.
fn search(
    table: &Table,
    query: &[f32],
    k: usize,
    nprobe: usize,
    allow: Option<&AllowSets>,
) -> Vec<SuperfileHit> {
    let candidates: Vec<Candidate> = table
        .superfiles
        .iter()
        .enumerate()
        .map(|(s, rows)| Candidate { uri: uri(s), clusters: Some(clusters(rows, query)) })
        .collect();
    let units = plan_probes(&candidates, nprobe, allow);
    let per_superfile: Vec<Vec<SuperfileHit>> = units
        .iter()
        .map(|unit| {
            let probed = |i: usize| match &unit.probe {
                Probe::Clusters(ids) => ids.contains(&((i % N_CENT) as u32)),
                Probe::Nprobe => true,
            };
            let admitted = |i: usize| unit.allow.as_ref().is_none_or(|rows| rows.contains(i as u32));
            let mut hits: Vec<SuperfileHit> = table.superfiles[unit.superfile]
                .iter()
                .enumerate()
                .filter(|(i, _)| probed(*i) && admitted(*i))
                .map(|(i, row)| SuperfileHit {
                    superfile: candidates[unit.superfile].uri,
                    local_doc_id: i as u32,
                    score: distance(query, &row.vector).to_bits(),
                })
                .collect();
            hits.sort_by(|a, b| f32::from_bits(a.score).total_cmp(&f32::from_bits(b.score)));
            hits.truncate(k);
            hits
        })
        .collect();
    top_k_ascending(&per_superfile, k)
}

/// The rows whose title has the token.
fn token_sets(table: &Table, token: &str) -> AllowSets {
    let matches = |row: &Row| row.title.split(' ').any(|t| t == token);
    let pairs = table
        .superfiles
        .iter()
        .enumerate()
        .map(|(s, rows)| {
            let docs: Vec<u32> =
                (0..rows.len()).filter(|&i| matches(&rows[i])).map(|i| i as u32).collect();
            (uri(s).0, matching_rows(&docs))
        })
        .collect();
    allow_sets(pairs)
}

fn global_of(table: &Table, hit: &SuperfileHit) -> usize {
    let superfile = (hit.superfile.0 - 100) as usize;
    superfile * table.superfiles[superfile].len() + hit.local_doc_id as usize
}

fn globals(table: &Table, hits: &[SuperfileHit]) -> HashSet<usize> {
    hits.iter().map(|h| global_of(table, h)).collect()
}

fn brute_force_filtered_topk(query: &[f32], token: &str, k: usize) -> Vec<usize> {
    let total = FILTER_N_SEG * FILTER_DOCS_PER_SEG;
    let mut scored: Vec<(usize, f32)> = (0..total)
        .filter(|&g| filter_token(g) == token)
        .map(|g| (g, distance(query, &filter_vec(g))))
        .collect();
    scored.sort_by(|a, b| {
        a.1.partial_cmp(&b.1).unwrap_or(std::cmp::Ordering::Equal).then(a.0.cmp(&b.0))
    });
    scored.into_iter().take(k).map(|(g, _)| g).collect()
}

fn assert_ascending(hits: &[SuperfileHit]) {
    for w in hits.windows(2) {
        assert!(
            f32::from_bits(w[0].score) <= f32::from_bits(w[1].score),
            "expected ascending: {:?} then {:?}",
            w[0],
            w[1]
        );
    }
}

#[test]
fn vector_search_empty_supertable_returns_empty() {
    assert_eq!(begin_search(5), SearchStep::Prune);
    for kind in [FilterKind::Unfiltered, FilterKind::Text, FilterKind::Plan] {
        assert_eq!(after_pruning(kind, Ok(0)), Ok(SearchStep::Finish));
    }
    assert!(search(&one_hot(0, 8, 16), &[0.1; 16], 5, ALL_CLUSTERS, None).is_empty());
}

#[test]
fn vector_search_k_zero_short_circuits() {
    assert_eq!(begin_search(0), SearchStep::Finish);
    assert!(search(&one_hot(1, 8, 16), &[0.1; 16], 0, ALL_CLUSTERS, None).is_empty());
}

#[test]
fn vector_search_returns_ascending_distance_order() {
    let dim = 16;
    let q: Vec<f32> = (0..dim).map(|d| (d as f32) / 100.0 + 0.001).collect();
    let hits = search(&one_hot(1, 8, dim), &q, 5, ALL_CLUSTERS, None);
    assert!(!hits.is_empty());
    assert_ascending(&hits);
}

#[test]
fn vector_search_top_k_caps_at_k() {
    // Three superfiles × 8 docs = 24 docs.
    let table = one_hot(3, 8, 16);
    assert_eq!(search(&table, &[0.1; 16], 7, ALL_CLUSTERS, None).len(), 7);
    assert_eq!(search(&table, &[0.1; 16], 100, ALL_CLUSTERS, None).len(), 24);
}

#[test]
fn vector_search_global_selection_recovers_neighbors_under_low_budget() {
    // 10 superfiles × 16 docs. The 10 docs with id % dim == 0, one per
    // superfile, are at distance 0; every other doc is at distance 1. With
    // nprobe = 1 only 10 of the 40 clusters are searched.
    let dim = 16;
    let hits = search(&one_hot(10, 16, dim), &axis(dim), 10, 1, None);
    let exact_neighbors = hits.iter().filter(|h| f32::from_bits(h.score) < 1e-3).count();
    assert!(exact_neighbors >= 9, "recovered {exact_neighbors}/10 exact neighbors");
}

#[test]
fn vector_search_carries_superfile_uris_for_multi_superfile_results() {
    let hits = search(&one_hot(3, 8, 16), &[0.1; 16], 24, ALL_CLUSTERS, None);
    let superfile_uris: HashSet<u128> = hits.iter().map(|h| h.superfile.0).collect();
    // All three superfiles should contribute (high k pulls from each).
    assert_eq!(superfile_uris.len(), 3);
}

#[test]
fn vector_search_oracle_top_k_set_matches_single_superfile() {
    let dim = 16;
    // 24 docs across 3 superfiles, and the same docs in one.
    let table = one_hot(3, 8, dim);
    let oracle = one_hot(1, 24, dim);
    let nprobe = 4;
    // The closest neighbors are docs whose global id is 0 mod dim.
    let q = axis(dim);
    let oracle_hits = search(&oracle, &q, 2, nprobe, None);
    let oracle_globals = globals(&oracle, &oracle_hits);
    assert_eq!(oracle_globals, HashSet::from([0, 16]));
    let hits = search(&table, &q, 2, nprobe, None);
    assert_eq!(hits.len(), oracle_hits.len());
    assert_eq!(globals(&table, &hits), oracle_globals);
}

#[test]
fn vector_search_filtered_returns_knn_among_matching_rows_only() {
    let table = filter_table();
    let query = filter_vec(7);
    let k = 8;
    let allow = token_sets(&table, "alpha");
    let hits = search(&table, &query, k, ALL_CLUSTERS, Some(&allow));

    // (a) Every returned hit is an alpha row.
    for h in &hits {
        let g = global_of(&table, h);
        assert_eq!(filter_token(g), "alpha", "hit global_id={g} is not an alpha row");
    }

    // (b) The returned set is the k nearest among the alpha rows only.
    let got = globals(&table, &hits);
    let truth: HashSet<usize> =
        brute_force_filtered_topk(&query, "alpha", k).into_iter().collect();
    assert_eq!(got.len(), k, "filtered kNN must return exactly k matching hits");
    assert_eq!(got, truth);

    // A filter over the unfiltered result would have found fewer.
    let global = search(&table, &query, k, ALL_CLUSTERS, None);
    let global_alpha =
        global.iter().filter(|h| filter_token(global_of(&table, h)) == "alpha").count();
    assert!(global_alpha < k, "the global top-{k} already had {global_alpha} alpha rows");
}

#[test]
fn vector_search_filtered_results_are_distance_ascending() {
    let table = filter_table();
    let allow = token_sets(&table, "alpha");
    let hits = search(&table, &filter_vec(11), 6, ALL_CLUSTERS, Some(&allow));
    assert!(!hits.is_empty());
    assert_ascending(&hits);
}

#[test]
fn vector_search_filtered_empty_match_returns_empty() {
    let table = filter_table();
    let allow = token_sets(&table, "nonexistenttoken");
    assert!(allow.is_empty());
    assert_eq!(after_candidates(&allow), SearchStep::Finish);
    let hits = search(&table, &filter_vec(3), 10, ALL_CLUSTERS, Some(&allow));
    assert!(hits.is_empty(), "empty-match filter must return empty: {hits:?}");
    assert_eq!(after_candidates(&token_sets(&table, "alpha")), SearchStep::FanOut);
}

#[test]
fn vector_search_filtered_k_zero_short_circuits() {
    let table = filter_table();
    let allow = token_sets(&table, "alpha");
    assert_eq!(begin_search(0), SearchStep::Finish);
    assert!(search(&table, &filter_vec(1), 0, ALL_CLUSTERS, Some(&allow)).is_empty());
}

#[test]
fn a_search_goes_on_by_its_filter() {
    assert_eq!(after_pruning(FilterKind::Unfiltered, Ok(2)), Ok(SearchStep::FanOut));
    assert_eq!(after_pruning(FilterKind::Text, Ok(2)), Ok(SearchStep::Tokenize));
    assert_eq!(after_pruning(FilterKind::Plan, Ok(2)), Ok(SearchStep::Candidates));
    assert_eq!(
        after_pruning(FilterKind::Plan, Err("gone".to_string())),
        Err(QueryError::ManifestLoad("gone".to_string()))
    );
    assert_eq!(after_tokens(None), SearchStep::Finish);
    assert_eq!(after_tokens(Some(0)), SearchStep::Finish);
    assert_eq!(after_tokens(Some(2)), SearchStep::Candidates);
    let filter = VectorFilter { column: "title", query: "alpha", mode: BoolMode::Or };
    assert_eq!((filter.column, filter.query, filter.mode), ("title", "alpha", BoolMode::Or));
}

// ---- which clusters ----------------------------------------------------

fn ranked(superfile: usize, scores: &[f32]) -> Candidate {
    Candidate {
        uri: uri(superfile),
        clusters: Some(
            scores.iter().enumerate().map(|(c, s)| (c as u32, s.to_bits())).collect(),
        ),
    }
}

#[test]
fn the_closest_clusters_of_all_superfiles_are_searched() {
    // One cluster each would be searched; the three closest of all are.
    let candidates =
        vec![ranked(0, &[0.9, 0.8]), ranked(1, &[0.1, 0.2, 0.7]), ranked(2, &[0.3, 0.6])];
    let units = plan_probes(&candidates, 1, None);
    let planned: Vec<(usize, Probe)> =
        units.iter().map(|u| (u.superfile, u.probe.clone())).collect();
    assert_eq!(
        planned,
        vec![(1, Probe::Clusters(vec![0, 1])), (2, Probe::Clusters(vec![0]))],
        "the far superfile is not touched"
    );
}

#[test]
fn as_many_clusters_are_searched_as_the_budget_allows() {
    let candidates =
        vec![ranked(0, &[0.9, 0.8]), ranked(1, &[0.1, 0.2, 0.7]), ranked(2, &[0.3, 0.6])];
    for (nprobe, searched) in [(0usize, 0usize), (1, 3), (2, 6), (3, 7), (9, 7)] {
        let n: usize = plan_probes(&candidates, nprobe, None)
            .iter()
            .map(|u| match &u.probe {
                Probe::Clusters(ids) => ids.len(),
                Probe::Nprobe => panic!("every superfile is ranked"),
            })
            .sum();
        assert_eq!(n, searched);
    }
}

#[test]
fn a_superfile_without_ranked_clusters_is_never_dropped() {
    let unranked = Candidate { uri: uri(1), clusters: None };
    let candidates = vec![ranked(0, &[0.5]), unranked];
    let units = plan_probes(&candidates, 1, None);
    assert_eq!(units.len(), 2);
    assert_eq!(units[0].probe, Probe::Clusters(vec![0]));
    assert_eq!(units[1].probe, Probe::Nprobe);
    assert!(units[1].allow.is_none());
    // Not even with no clusters to search.
    let none = plan_probes(&candidates, 0, None);
    assert_eq!(none.len(), 1);
    assert_eq!(none[0].superfile, 1);
    // Nor one whose ranking is empty.
    let empty = plan_probes(&[ranked(0, &[])], 1, None);
    assert_eq!(empty.len(), 1);
    assert_eq!(empty[0].probe, Probe::Nprobe);
}

#[test]
fn a_filtered_search_skips_superfiles_without_admitted_rows() {
    let candidates = vec![ranked(0, &[0.1]), ranked(1, &[0.2]), ranked(2, &[0.3, 0.4])];
    let allow = allow_sets(vec![
        (uri(0).0, RoaringBitmap::new()),
        (uri(2).0, matching_rows(&[3, 5])),
    ]);
    let units = plan_probes(&candidates, 2, Some(&allow));
    assert_eq!(units.len(), 1);
    assert_eq!(units[0].superfile, 2);
    assert_eq!(units[0].probe, Probe::Clusters(vec![0, 1]));
    let rows: Vec<u32> = units[0].allow.as_ref().expect("admitted rows").iter().collect();
    assert_eq!(rows, vec![3, 5]);
}

#[test]
fn clusters_are_ranked_only_with_centres_of_the_right_length() {
    assert!(ranks_clusters(Some((4, 16)), 16));
    assert!(!ranks_clusters(Some((0, 16)), 16));
    assert!(!ranks_clusters(Some((4, 8)), 16));
    assert!(!ranks_clusters(None, 16));
    let columns = [("a".to_string(), Metric::Cosine), ("b".to_string(), Metric::NegDot)];
    assert_eq!(metric_of(&columns, "b"), Metric::NegDot);
    assert_eq!(metric_of(&columns, "c"), Metric::L2Sq);
}

#[test]
fn a_filtered_search_goes_in_waves() {
    assert_eq!(wave_len(false, 2, 9), 9);
    assert_eq!(wave_len(true, 4, 9), 4);
    assert_eq!(wave_len(true, 4, 3), 3);
    assert_eq!(wave_len(true, 0, 3), 1);
}

#[test]
fn a_plan_without_bound_admits_nothing() {
    assert!(planned_rows(None).is_empty());
    let rows: Vec<u32> = planned_rows(Some(matching_rows(&[2, 1]))).iter().collect();
    assert_eq!(rows, vec![1, 2]);
}

#[test]
fn rows_counted_over_all_superfiles_become_local() {
    let entry = |s: usize, n_docs: u64| {
        Arc::new(SuperfileEntry {
            superfile_id: uri(s).0,
            uri: uri(s),
            n_docs,
            id_min: 0,
            id_max: 0,
            scalar_stats: Vec::new(),
            fts_summary: Vec::new(),
            vector_summary: Vec::new(),
            partition_key: Vec::new(),
            partition_hint: None,
            subsection_offsets: None,
        })
    };
    let manifest = vec![entry(0, 10), entry(1, 5), entry(2, 10)];
    let global: RoaringBitmap = [0u32, 9, 15, 24, 25, 4_000_000_000].into_iter().collect();
    let sets = local_allow_sets(&manifest, &global);
    let rows = |s: usize| sets.get(&uri(s).0).map(|b| b.iter().collect::<Vec<u32>>());
    assert_eq!(rows(0), Some(vec![0, 9]));
    assert_eq!(rows(1), None);
    assert_eq!(rows(2), Some(vec![0, 9]));
}

#[test]
fn equally_close_hits_keep_their_order() {
    let hit = |s: usize, doc: u32, score: f32| SuperfileHit {
        superfile: uri(s),
        local_doc_id: doc,
        score: score.to_bits(),
    };
    let lists =
        vec![vec![hit(0, 1, 0.5), hit(0, 2, -1.0)], Vec::new(), vec![hit(2, 3, 0.5), hit(2, 4, 0.0)]];
    let docs: Vec<u32> = top_k_ascending(&lists, 4).iter().map(|h| h.local_doc_id).collect();
    assert_eq!(docs, vec![2, 4, 1, 3]);
    let docs: Vec<u32> = top_k_ascending(&lists, 3).iter().map(|h| h.local_doc_id).collect();
    assert_eq!(docs, vec![2, 4, 1]);
}

fn scores(lists: &[&[f32]], k: usize) -> Vec<f32> {
    let lists: Vec<Vec<SuperfileHit>> = lists
        .iter()
        .enumerate()
        .map(|(s, list)| {
            list.iter()
                .enumerate()
                .map(|(i, score)| SuperfileHit {
                    superfile: uri(s),
                    local_doc_id: i as u32,
                    score: score.to_bits(),
                })
                .collect()
        })
        .collect();
    top_k_ascending(&lists, k).iter().map(|h| f32::from_bits(h.score)).collect()
}

#[test]
fn nothing_is_closer_than_a_nan_nor_a_nan_than_anything() {
    let nan = f32::NAN;
    // The first hit stays until one comes that is closer.
    assert!(scores(&[&[nan], &[1.0]], 1)[0].is_nan());
    assert_eq!(scores(&[&[1.0], &[nan]], 1), vec![1.0]);
    assert_eq!(scores(&[&[1.0], &[nan], &[0.5]], 1), vec![0.5]);
    assert!(scores(&[&[nan], &[1.0], &[f32::NEG_INFINITY]], 1)[0].is_nan());
    // With room for all of them, all of them stay.
    let all = scores(&[&[nan, 2.0], &[1.0]], 3);
    assert_eq!(all[..2], [1.0, 2.0]);
    assert!(all[2].is_nan());
    // One that comes after the first `k` is not kept.
    assert_eq!(scores(&[&[2.0, 1.0], &[nan, 0.5]], 2), vec![0.5, 1.0]);
    // One among the first `k` stays.
    let kept = scores(&[&[2.0, nan], &[0.5]], 2);
    assert_eq!(kept[0], 0.5);
    assert!(kept[1].is_nan());
    assert!(scores(&[&[nan, 2.0]], 0).is_empty());
}

// ---- tiers -------------------------------------------------------------

fn found(step: Result<TierStep<u8>, ReaderCacheError>) -> Option<u8> {
    match step {
        Ok(TierStep::Found(reader)) => Some(reader),
        _ => None,
    }
}

#[test]
fn a_superfile_is_looked_for_tier_by_tier() {
    let missing = || Err(ReaderCacheError::NotFound { uri: uri(1) });
    assert_eq!(found(after_memory(Ok(7), true, true, uri(1))), Some(7));
    assert!(matches!(
        after_memory::<u8>(missing(), true, true, uri(1)),
        Ok(TierStep::DiskCache)
    ));
    assert!(matches!(
        after_memory::<u8>(missing(), false, true, uri(1)),
        Ok(TierStep::Storage)
    ));
    assert!(matches!(
        after_memory::<u8>(missing(), false, false, uri(1)),
        Err(ReaderCacheError::NotFound { uri }) if uri.0 == 101
    ));
    let failed = ReaderCacheError::OpenFailed { source: "crc".to_string() };
    match after_memory::<u8>(Err(failed.clone()), true, true, uri(1)) {
        Err(e) => assert_eq!(e, failed),
        Ok(_) => panic!("expected an error"),
    }
}

#[test]
fn what_does_not_fit_the_disk_cache_is_read_by_ranges() {
    assert_eq!(found(after_disk_cache(Ok(7))), Some(7));
    let too_big = || DiskCacheError::BudgetExceeded("too big".to_string());
    assert!(matches!(after_disk_cache::<u8>(Err(too_big())), Ok(TierStep::RangeOnly)));
    let failed = |text: &str| ReaderCacheError::OpenFailed { source: text.to_string() };
    match after_disk_cache::<u8>(Err(DiskCacheError::Failed("io".to_string()))) {
        Err(e) => assert_eq!(e, failed("disk cache fetch: io")),
        Ok(_) => panic!("expected an error"),
    }
    assert_eq!(after_range_only::<u8>(Ok(7)), Ok(7));
    assert_eq!(after_range_only::<u8>(Err(too_big())), Err(failed("disk cache fetch: too big")));
    assert_eq!(after_storage("p/q", Ok(7u8)), Ok(7));
    let lost = StorageError::NotFound { uri: "p/q".to_string() };
    assert_eq!(
        after_storage::<u8>("p/q", Err(lost)),
        Err(failed("storage fetch p/q: not found: p/q"))
    );
}

// ---- match calls -------------------------------------------------------

#[test]
fn match_tvf_arity_errors() {
    assert_eq!(check_token_match_arity(2), Ok(()));
    assert_eq!(check_token_match_arity(3), Ok(()));
    assert_eq!(
        check_token_match_arity(1),
        Err(MatchError::Plan(
            "token_match expects 2 or 3 arguments (column, query[, mode]), got 1".to_string()
        ))
    );
    assert_eq!(check_exact_match_arity(2), Ok(()));
    assert_eq!(
        check_exact_match_arity(3),
        Err(MatchError::Plan(
            "exact_match expects 2 arguments (column, value), got 3".to_string()
        ))
    );
}

#[test]
fn a_match_call_reads_its_arguments_in_order() {
    let text = |s: &str| Ok(s.to_string());
    let bad = |s: &str| MatchError::Plan(s.to_string());
    let call = token_match_call(text("title"), text("rust async"), None, true).expect("call");
    assert_eq!(
        call.query,
        MatchQuery::Token { query: "rust async".to_string(), mode: BoolMode::Or }
    );
    assert_eq!(call.describe(), "MatchExec: kind=token, column=title, mode=Or");
    let call = token_match_call(text("title"), text("x"), Some(Ok(BoolMode::And)), true)
        .expect("call");
    assert_eq!(call.describe(), "MatchExec: kind=token, column=title, mode=And");
    let call = exact_match_call(text("title"), text("Rust"), true).expect("call");
    assert_eq!(call.query, MatchQuery::Exact { value: "Rust".to_string() });
    assert_eq!(call.describe(), "MatchExec: kind=exact, column=title");

    assert_eq!(
        token_match_call(Err(bad("c")), Err(bad("q")), Some(Err(bad("m"))), true),
        Err(bad("c"))
    );
    assert_eq!(
        token_match_call(text("c"), Err(bad("q")), Some(Err(bad("m"))), true),
        Err(bad("q"))
    );
    assert_eq!(
        token_match_call(text("c"), text("q"), Some(Err(bad("m"))), false),
        Err(bad("m"))
    );
    assert_eq!(
        token_match_call(text("c"), text("q"), None, false),
        Err(MatchError::Execution(
            "token_match: supertable consumer dropped before execution".to_string()
        ))
    );
    assert_eq!(
        exact_match_call(text("c"), text("v"), false),
        Err(MatchError::Execution(
            "exact_match: supertable consumer dropped before execution".to_string()
        ))
    );
    assert_eq!(exact_match_call(text("c"), Err(bad("v")), true), Err(bad("v")));
}

#[test]
fn a_match_plan_has_one_partition() {
    assert_eq!(check_partition(0), Ok(()));
    assert_eq!(
        check_partition(2),
        Err(MatchError::Internal(
            "MatchExec has a single partition; asked for 2".to_string()
        ))
    );
}
