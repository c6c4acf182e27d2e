use std::collections::HashSet;
use infino::supertable::utils::idgen::{
    sequence_of, timestamp_of, worker_id_of, IdGenerator, WORKER_MASK,
};

/// An id as a generator mints it.
fn minted(timestamp: u64, worker: u64, sequence: u32) -> i128 {
    ((timestamp as i128) << 64) | ((worker as i128) << 24) | sequence as i128
}

const NOW_MS: u64 = 1_700_000_000_000;

#[test]
fn high_bit_stays_zero_for_current_era_timestamps() {
    let id = minted(NOW_MS, WORKER_MASK, 0xFF_FFFF);
    assert!(id >= 0, "id={id} unexpectedly negative");
    assert_eq!(timestamp_of(id), NOW_MS);
    assert_eq!(worker_id_of(id), WORKER_MASK);
    assert_eq!(sequence_of(id), 0xFF_FFFF);
}

#[test]
fn worker_id_truncates_to_40_bits_and_is_recoverable() {
    let g = IdGenerator::with_worker_id(u64::MAX);
    assert_eq!(g.worker_id(), WORKER_MASK);
    let id = minted(NOW_MS, g.worker_id(), 3);
    assert_eq!(worker_id_of(id), WORKER_MASK);
}

#[test]
fn worker_id_zero_is_valid() {
    let g = IdGenerator::with_worker_id(0);
    let id = minted(NOW_MS, g.worker_id(), 3);
    assert_eq!(worker_id_of(id), 0);
}

#[test]
fn different_worker_ids_appear_in_their_id_field() {
    let g1 = IdGenerator::with_worker_id(0x01);
    let g2 = IdGenerator::with_worker_id(0xFE_DCBA);
    assert_eq!(worker_id_of(minted(NOW_MS, g1.worker_id(), 0)), 0x01);
    assert_eq!(worker_id_of(minted(NOW_MS, g2.worker_id(), 0)), 0xFE_DCBA);
}

#[test]
fn new_picks_random_worker_id_per_instance() {
    let g1 = IdGenerator::new();
    let g2 = IdGenerator::default();
    assert_ne!(g1.worker_id(), g2.worker_id(), "two generators collided on worker_id");
    assert!(g1.worker_id() <= WORKER_MASK);
}

#[test]
fn debug_format_includes_worker_id_in_hex() {
    let g = IdGenerator::with_worker_id(0xDEAD_BEEF);
    let s = g.debug_text();
    assert!(s.contains("0x00deadbeef"), "got: {s}");
    assert_eq!(s, "IdGenerator { worker_id: 0x00deadbeef }");
}

// ---- reserve_range -----------------------------------------------------

fn flatten_spans(spans: &[(i128, i128)]) -> Vec<i128> {
    let mut out = Vec::new();
    for (first, last) in spans {
        for v in *first..=*last {
            out.push(v);
        }
    }
    out
}

/// `n` ids, of which a millisecond holds `per_ms`.
fn burst(worker: u64, n: u32, per_ms: u32) -> Vec<i128> {
    (0..n).map(|i| minted(NOW_MS + (i / per_ms) as u64, worker, i % per_ms)).collect()
}

#[test]
fn reserve_range_zero_returns_empty() {
    let spans = IdGenerator::reserve_range(&[]);
    assert!(spans.is_empty());
}

#[test]
fn reserve_range_one_returns_singleton_span() {
    let spans = IdGenerator::reserve_range(&burst(0x1234, 1, 10));
    assert_eq!(spans.len(), 1);
    let (first, last) = spans[0];
    assert_eq!(first, last);
}

#[test]
fn reserve_range_small_n_flattens_to_n_monotonic_ids() {
    let spans = IdGenerator::reserve_range(&burst(0x1234, 100, 1 << 20));
    assert_eq!(spans.len(), 1);
    let flat = flatten_spans(&spans);
    assert_eq!(flat.len(), 100);
    for w in flat.windows(2) {
        assert!(w[1] > w[0], "reserve_range ids must be strictly monotonic");
    }
}

#[test]
fn reserve_range_large_n_still_flattens_correctly() {
    let n = 10_000u32;
    let ids = burst(0xCAFE, n, 3000);
    let spans = IdGenerator::reserve_range(&ids);
    let flat = flatten_spans(&spans);
    assert_eq!(flat, ids);
    let mut seen = HashSet::with_capacity(n as usize);
    for id in &flat {
        assert!(seen.insert(*id), "duplicate id in reserve_range output: {id}");
    }
    for w in flat.windows(2) {
        assert!(w[1] > w[0]);
    }
    for (first, last) in &spans {
        assert!(last >= first, "span ({first}, {last}) is inverted");
    }
}

#[test]
fn reserve_range_across_ms_boundary_produces_multi_span() {
    let ids = burst(0x20, 10, 4);
    let spans = IdGenerator::reserve_range(&ids);
    assert_eq!(
        spans,
        vec![(ids[0], ids[3]), (ids[4], ids[7]), (ids[8], ids[9])],
        "one span for each millisecond"
    );
}

// ---- cross-worker isolation --------------------------------------------

#[test]
fn cross_worker_ids_remain_distinct_within_same_ms() {
    let id1 = minted(NOW_MS, IdGenerator::with_worker_id(0xAAAA).worker_id(), 7);
    let id2 = minted(NOW_MS, IdGenerator::with_worker_id(0xBBBB).worker_id(), 7);
    assert_ne!(id1, id2);
    assert_eq!(worker_id_of(id1), 0xAAAA);
    assert_eq!(worker_id_of(id2), 0xBBBB);
    assert!(minted(NOW_MS + 1, 0, 0) > minted(NOW_MS, WORKER_MASK, 0xFF_FFFF));
}
