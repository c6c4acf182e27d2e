use infino::superfile::fts::bm25::{B, K1};

fn approx(a: f32, b: f32, eps: f32) -> bool {
    (a - b).abs() < eps
}

#[test]
fn lucene_defaults_match() {
    let (k1, b) = (f32::from_bits(K1), f32::from_bits(B));
    assert!(approx(k1, 1.2, 1e-6));
    assert!(approx(b, 0.75, 1e-6));
    assert_eq!((k1, b), (1.2, 0.75));
}
