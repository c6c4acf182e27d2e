use std::sync::Arc;
use infino::superfile::vector::distance::{
    bf16_lane, bf16_to_f32, fp32_lane, fp32_to_bf16, score_key, Metric,
};
use infino::superfile::vector::reservoir::{default_kmeans_sample_size, Reservoir};
use infino::superfile::vector::spill::{
    ChunkedVectorSource, InMemoryVectorSource, MisalignedSpill, MmapVectorSource,
};
use rand::RngExt;

// ---- bf16 --------------------------------------------------------------

fn narrow(x: f32) -> u16 {
    fp32_to_bf16(x.to_bits())
}

fn widen(bf: u16) -> f32 {
    f32::from_bits(bf16_to_f32(bf))
}

#[test]
fn bf16_round_trip_exact_for_representable_values() {
    for &x in &[0.0f32, 1.0, -1.0, 2.0, 4.0, 0.5, -0.5] {
        let bf = narrow(x);
        assert_eq!(widen(bf), x, "value {x} did not round-trip");
    }
}

#[test]
fn bf16_round_trip_within_relative_tolerance() {
    // Arbitrary fp32s round-trip within ~2⁻⁸ relative error.
    for &x in &[1.234e-3f32, 0.123_456_7, 1.5e3, -7.7e-2, 42.0] {
        let bf = narrow(x);
        let r = widen(bf);
        let err = ((r - x) / x).abs();
        assert!(err <= 1.0 / 128.0, "value {x}: round-trip err {err}");
    }
}

#[test]
fn bf16_ties_round_to_even() {
    let mid_down = f32::from_bits(0x3F80_8000);
    assert_eq!(widen(narrow(mid_down)), 1.0);
    let mid_up = f32::from_bits(0x3F81_8000);
    assert_eq!(widen(narrow(mid_up)), f32::from_bits(0x3F82_0000));
}

#[test]
fn bf16_keeps_nan_infinity_and_sign() {
    assert!(widen(narrow(f32::NAN)).is_nan());
    assert!(widen(narrow(f32::from_bits(0xFF80_0001))).is_nan());
    assert!(widen(narrow(f32::from_bits(0xFF80_0001))).is_sign_negative());
    assert_eq!(widen(narrow(f32::INFINITY)), f32::INFINITY);
    assert_eq!(widen(narrow(f32::NEG_INFINITY)), f32::NEG_INFINITY);
    assert_eq!(widen(narrow(f32::MAX)), f32::INFINITY);
    assert_eq!(narrow(-0.0), 0x8000);
}

#[test]
fn stored_numbers_are_read_by_position() {
    let values = [1.5f32, -2.25, 1.0e10];
    let wide: Vec<u8> = values.iter().flat_map(|x| x.to_le_bytes()).collect();
    let short: Vec<u8> = values.iter().flat_map(|&x| narrow(x).to_le_bytes()).collect();
    for (i, &x) in values.iter().enumerate() {
        assert_eq!(f32::from_bits(fp32_lane(&wide, i)), x);
        assert_eq!(f32::from_bits(bf16_lane(&short, i)), widen(narrow(x)));
    }
}

#[test]
fn scores_sort_as_the_numbers_do() {
    let ascending = [f32::NEG_INFINITY, -3.5, -1.0e-20, 0.0, 1.0e-20, 0.25, 2.0, f32::INFINITY];
    for pair in ascending.windows(2) {
        assert!(score_key(pair[0].to_bits()) < score_key(pair[1].to_bits()), "{pair:?}");
    }
    assert_eq!(score_key((-0.0f32).to_bits()), score_key(0.0f32.to_bits()));
    assert_eq!(format!("{:?}", Metric::L2Sq), "L2Sq");
}

// ---- reservoir ---------------------------------------------------------

/// A reservoir with the skips drawn from its own generator: the number of
/// vectors that pass by follows the geometric distribution of Vitter's
/// Algorithm L.
struct Sampler {
    inner: Reservoir<f32>,
    w: f64,
}

impl Sampler {
    fn new(sample_size: usize, dim: usize, seed: u64) -> Sampler {
        Sampler { inner: Reservoir::new(sample_size, dim, seed), w: 1.0 }
    }

    fn nonzero_uniform(&mut self) -> f64 {
        1.0 - self.inner.rng().random::<f64>()
    }

    fn update(&mut self, row: &[f32]) {
        if self.inner.update(row) {
            let k = self.inner.sample_size() as f64;
            self.w *= (self.nonzero_uniform().ln() / k).exp();
            let u = self.nonzero_uniform();
            let denom = (1.0 - self.w).ln();
            let skip = if !denom.is_finite() || denom == 0.0 {
                0
            } else {
                (u.ln() / denom).floor().max(0.0) as u64
            };
            self.inner.set_skip(skip);
        }
    }
}

fn run(reservoir_size: usize, dim: usize, n: u64, seed: u64) -> Reservoir<f32> {
    let mut r = Sampler::new(reservoir_size, dim, seed);
    for i in 0..n {
        // Each row encodes its source index in the first f32.
        let mut row = vec![0.0f32; dim];
        row[0] = i as f32;
        r.update(&row);
    }
    r.inner
}

#[test]
fn fill_phase_appends_exactly_n_seen_rows() {
    let dim = 4;
    let mut r = Sampler::new(10, dim, 1);
    for i in 0..5 {
        let mut row = vec![0.0f32; dim];
        row[0] = i as f32;
        r.update(&row);
        assert_eq!(r.inner.n_rows(), (i + 1) as usize);
        assert_eq!(r.inner.sample().len(), (i + 1) as usize * dim);
    }
}

#[test]
fn at_fill_boundary_buffer_holds_first_k_rows_in_order() {
    let dim = 3;
    let r = run(5, dim, 5, 7);
    let s = r.sample();
    assert_eq!(s.len(), 5 * dim);
    for i in 0..5 {
        assert_eq!(s[i * dim], i as f32, "fill phase didn't preserve insertion order");
    }
}

#[test]
fn n_seen_counts_every_update_regardless_of_acceptance() {
    let r = run(10, 2, 1000, 42);
    assert_eq!(r.n_seen(), 1000);
    assert_eq!(r.n_rows(), 10);
}

#[test]
fn determinism_same_seed_same_reservoir() {
    let a = run(50, 4, 10_000, 12345);
    let b = run(50, 4, 10_000, 12345);
    assert_eq!(a.sample(), b.sample());
}

#[test]
fn different_seeds_yield_different_reservoirs() {
    let a = run(50, 4, 10_000, 1);
    let b = run(50, 4, 10_000, 2);
    assert_ne!(a.sample(), b.sample(), "two seeds yielded identical reservoirs");
}

#[test]
fn distribution_is_approximately_uniform_across_seeds() {
    let n = 1000usize;
    let sample_size = 100usize;
    let trials = 200usize;
    let dim = 1;
    let mut counts = vec![0u64; n];
    for trial in 0..trials {
        let r = run(sample_size, dim, n as u64, trial as u64 + 1);
        let s = r.sample();
        assert_eq!(s.len(), sample_size * dim);
        for row in 0..sample_size {
            let idx = s[row * dim] as usize;
            assert!(idx < n, "reservoir held out-of-range item {idx}");
            counts[idx] += 1;
        }
    }
    let total: u64 = counts.iter().sum();
    let expected_total = (trials * sample_size) as u64;
    assert_eq!(total, expected_total, "expected exact total");
    let mean = expected_total as f64 / n as f64;
    let max = *counts.iter().max().expect("counts non-empty") as f64;
    let min = *counts.iter().min().expect("counts non-empty") as f64;
    assert!(
        (max - mean).abs() < 20.0 && (mean - min).abs() < 20.0,
        "non-uniform sampling: mean={mean:.2}, min={min}, max={max} \
         (trial={trials}, n={n}, sample_size={sample_size})"
    );
}

#[test]
fn handles_n_smaller_than_sample_size() {
    let dim = 2;
    let mut r = Sampler::new(100, dim, 999);
    for i in 0..5u32 {
        let mut row = vec![0.0f32; dim];
        row[0] = i as f32;
        r.update(&row);
    }
    assert_eq!(r.inner.n_seen(), 5);
    assert_eq!(r.inner.n_rows(), 5);
    let s = r.inner.sample();
    assert_eq!(s.len(), 5 * dim);
    for i in 0..5 {
        assert_eq!(s[i * dim], i as f32);
    }
}

#[test]
fn handles_n_equal_to_sample_size() {
    let r = run(50, 3, 50, 7);
    assert_eq!(r.n_seen(), 50);
    assert_eq!(r.n_rows(), 50);
    let s = r.sample();
    // First 50 items, in order.
    for i in 0..50 {
        assert_eq!(s[i * 3], i as f32, "expected pure fill phase");
    }
}

#[test]
fn into_sample_consumes_reservoir() {
    let r = run(10, 4, 10_000, 1);
    let owned = r.into_sample();
    assert_eq!(owned.len(), 10 * 4);
}

#[test]
fn default_sample_size_clamps() {
    // Floor: small n_cent saturates at 100K.
    assert_eq!(default_kmeans_sample_size(0), 100_000);
    assert_eq!(default_kmeans_sample_size(64), 100_000);
    assert_eq!(default_kmeans_sample_size(1_000), 100_000);
    // Mid: 64 × n_cent in band.
    assert_eq!(default_kmeans_sample_size(2_000), 128_000);
    assert_eq!(default_kmeans_sample_size(4_096), 4_096 * 64);
    // Cap: large n_cent saturates at 500K.
    assert_eq!(default_kmeans_sample_size(8_192), 500_000);
    assert_eq!(default_kmeans_sample_size(16_384), 500_000);
    // Overflow guard: usize::MAX × 64 must not panic.
    assert_eq!(default_kmeans_sample_size(usize::MAX), 500_000);
}

#[test]
fn every_item_present_when_stream_shorter_than_sample() {
    let dim = 1;
    let r = run(100, dim, 30, 1);
    let s = r.sample();
    let mut indices: Vec<u32> = s.chunks(dim).map(|row| row[0] as u32).collect();
    indices.sort();
    assert_eq!(indices, (0..30).collect::<Vec<_>>());
}

#[test]
fn a_full_reservoir_replaces_the_drawn_row_when_it_is_due() {
    let mut r: Reservoir<u8> = Reservoir::new(2, 2, 0);
    assert!(!r.update_at(&[1, 1], 0));
    assert!(r.update_at(&[2, 2], 0), "filled: the skip has to be set");
    r.set_skip(1);
    assert!(!r.update_at(&[3, 3], 1), "passes by");
    assert_eq!(r.sample(), &[1, 1, 2, 2]);
    assert!(r.update_at(&[4, 4], 1), "due");
    assert_eq!(r.sample(), &[1, 1, 4, 4]);
    assert_eq!((r.n_seen(), r.n_rows(), r.sample_size()), (4, 2, 2));
}

// ---- spill -------------------------------------------------------------

/// Row `r` column `c` is `r * 1000 + c`.
fn synth(n_rows: usize, dim: usize) -> Vec<f32> {
    let mut v = Vec::with_capacity(n_rows * dim);
    for r in 0..n_rows {
        for c in 0..dim {
            v.push(r as f32 * 1000.0 + c as f32);
        }
    }
    v
}

fn spilled(values: &[f32]) -> Vec<u8> {
    bytemuck::cast_slice(values).to_vec()
}

fn numbers(bytes: &[u8]) -> Vec<f32> {
    bytes.chunks(4).map(|b| f32::from_le_bytes([b[0], b[1], b[2], b[3]])).collect()
}

#[test]
fn spill_write_then_mmap_read_round_trip() {
    let n_rows = 17;
    let dim = 8;
    let corpus = synth(n_rows, dim);
    let file = spilled(&corpus);
    let mut src = MmapVectorSource::open(file.len(), dim, 5).expect("open");
    assert_eq!(src.n_rows(), n_rows);
    assert_eq!(src.dim(), dim);
    assert_eq!(src.chunk_rows(), 5);

    let mut emitted = Vec::with_capacity(n_rows * dim);
    while let Some((start, end)) = src.next_chunk() {
        emitted.extend(numbers(&file[start..end]));
    }
    assert_eq!(emitted, corpus, "f32 round-trip mismatch");
}

#[test]
fn spill_write_vec_per_row_matches_write_all() {
    let n_rows = 13;
    let dim = 4;
    let corpus = synth(n_rows, dim);
    let mut file = Vec::new();
    for row in corpus.chunks(dim) {
        file.extend(spilled(row));
    }
    assert_eq!(file, spilled(&corpus));
    let mut src = MmapVectorSource::open(file.len(), dim, dim).expect("open");
    let mut emitted = Vec::with_capacity(n_rows * dim);
    while let Some((start, end)) = src.next_chunk() {
        emitted.extend(numbers(&file[start..end]));
    }
    assert_eq!(emitted, corpus, "per-row round-trip mismatch");
}

#[test]
fn in_memory_source_yields_full_corpus_in_chunk_size_steps() {
    let n_rows = 25;
    let dim = 3;
    let corpus = synth(n_rows, dim);

    let mut src = InMemoryVectorSource::new(Arc::new(corpus.clone()), dim, 7);
    assert_eq!(src.n_rows(), n_rows);
    assert_eq!(src.dim(), dim);
    assert_eq!(src.chunk_rows(), 7);

    // Expect chunks of 7, 7, 7, 4 rows.
    let chunk = src.next_chunk().expect("chunk 0");
    assert_eq!(chunk.len(), 7 * dim);
    assert_eq!(chunk, &corpus[0..7 * dim]);

    let chunk = src.next_chunk().expect("chunk 1");
    assert_eq!(chunk.len(), 7 * dim);
    assert_eq!(chunk, &corpus[7 * dim..14 * dim]);

    let chunk = src.next_chunk().expect("chunk 2");
    assert_eq!(chunk.len(), 7 * dim);
    assert_eq!(chunk, &corpus[14 * dim..21 * dim]);

    let chunk = src.next_chunk().expect("chunk 3 (partial)");
    assert_eq!(chunk.len(), 4 * dim);
    assert_eq!(chunk, &corpus[21 * dim..25 * dim]);

    assert!(src.next_chunk().is_none(), "expected exhausted");
    assert!(src.next_chunk().is_none(), "still exhausted on re-poll");
}

#[test]
fn in_memory_source_reset_replays_from_zero() {
    let n_rows = 10;
    let dim = 4;
    let corpus = synth(n_rows, dim);
    let mut src = InMemoryVectorSource::new(Arc::new(corpus.clone()), dim, 3);

    let first_pass: Vec<f32> =
        std::iter::from_fn(|| src.next_chunk().map(|c| c.to_vec())).flatten().collect();
    assert_eq!(first_pass, corpus);

    src.reset();

    let second_pass: Vec<f32> =
        std::iter::from_fn(|| src.next_chunk().map(|c| c.to_vec())).flatten().collect();
    assert_eq!(second_pass, corpus, "reset didn't replay full corpus");
}

#[test]
fn mmap_source_chunk_boundary_matches_in_memory() {
    let n_rows = 50;
    let dim = 5;
    let corpus = synth(n_rows, dim);
    let file = spilled(&corpus);

    let chunk_rows = 11;
    let mut mem = InMemoryVectorSource::new(Arc::new(corpus.clone()), dim, chunk_rows);
    let mut mm = MmapVectorSource::open(file.len(), dim, chunk_rows).expect("open");

    loop {
        let a = mem.next_chunk();
        let b = mm.next_chunk();
        match (a, b) {
            (Some(x), Some((start, end))) => {
                assert_eq!(x, &numbers(&file[start..end])[..], "chunk-boundary divergence")
            }
            (None, None) => break,
            _ => panic!("source exhaustion disagreement"),
        }
    }
}

#[test]
fn mmap_source_rejects_misaligned_file_length() {
    // 17 bytes are not a multiple of (dim=4) * 4 = 16.
    match MmapVectorSource::open(17, 4, 1) {
        Ok(_) => panic!("expected length-mismatch error, got Ok"),
        Err(e) => {
            assert_eq!(e, MisalignedSpill { file_len: 17, dim: 4 });
            assert_eq!(
                e.message(),
                "spill file length 17 is not a multiple of row size 16 (dim=4)"
            );
        }
    }
}

#[test]
fn empty_corpus_yields_no_chunks() {
    let mut s = InMemoryVectorSource::new(Arc::new(Vec::<f32>::new()), 4, 8);
    assert_eq!(s.n_rows(), 0);
    assert!(s.next_chunk().is_none());

    let mut s = MmapVectorSource::open(0, 4, 8).expect("open empty");
    assert_eq!(s.n_rows(), 0);
    assert!(s.next_chunk().is_none());
}
