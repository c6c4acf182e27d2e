use std::cell::Cell;
use std::sync::Arc;
use bytes::Bytes;
use infino::storage::StorageError;
use infino::superfile::lazy_source::{
    plan_tail, ByteRange, BytesLazyByteSource, LazyByteSource, LazyByteSourceError, LazySubSource,
    PrefetchedSource, RangeStep, RangesPlan, Source,
};
use infino::supertable::lazy_source::StorageRangeSource;

/// The bytes of a step: at hand, or read from the object.
fn served(step: RangeStep, object: &BytesLazyByteSource) -> Bytes {
    match step {
        RangeStep::Ready(bytes) => bytes,
        RangeStep::Fetch { start, len } => object.range(start, len).expect("in bounds"),
    }
}

#[test]
fn bytes_lazy_source_size_and_range() {
    let payload = Bytes::from(vec![0u8, 1, 2, 3, 4, 5, 6, 7, 8, 9]);
    let src = BytesLazyByteSource::new(payload.clone());
    assert_eq!(src.size(), payload.len() as u64);

    let slice = src.range(2, 4).expect("range");
    assert_eq!(slice.as_ref(), &payload[2..6]);
}

#[test]
fn bytes_lazy_source_out_of_bounds_surfaces_typed_error() {
    let src = BytesLazyByteSource::new(Bytes::from(vec![0u8; 4]));
    let err = src.range(2, 100).expect_err("must reject out-of-bounds");
    assert!(
        matches!(err, LazyByteSourceError::OutOfBounds { .. }),
        "expected OutOfBounds, got {err:?}"
    );
    assert_eq!(err.message(), "range out of bounds: start=2 len=100 size=4");
    assert!(src.range(u64::MAX, 2).is_err());
}

#[test]
fn bytes_lazy_source_try_get_range_sync_returns_zero_copy_slice() {
    let payload = Bytes::from(vec![10u8, 20, 30, 40, 50, 60, 70, 80]);
    let src = BytesLazyByteSource::new(payload.clone());
    let got = src.try_get_range_sync(2, 4).expect("in-bounds sync must succeed");
    assert_eq!(got.as_ref(), &payload[2..6]);
    // Zero-copy: the slice lies in the payload's own memory.
    assert_eq!(got.as_ptr() as usize, payload.as_ptr() as usize + 2);
}

#[test]
fn bytes_lazy_source_try_get_range_sync_returns_none_out_of_bounds() {
    let src = BytesLazyByteSource::new(Bytes::from(vec![0u8; 4]));
    assert!(src.try_get_range_sync(2, 100).is_none());
    assert!(src.try_get_range_sync(100, 0).is_none());
}

#[test]
fn prefetched_source_serves_installed_range_zero_copy() {
    let payload = Bytes::from(vec![1u8, 2, 3, 4, 5, 6, 7, 8, 9, 10]);
    let inner = Arc::new(BytesLazyByteSource::new(payload.clone()));
    let mut overlay = PrefetchedSource::new(Arc::clone(&inner));
    let installed = payload.slice(2..7);
    overlay.install(2, installed.clone());

    let got = overlay.try_get_range_sync(3, 3).expect("installed range covers (3..6)");
    assert_eq!(got.as_ref(), &payload[3..6]);
    assert_eq!(got.as_ptr() as usize, payload.as_ptr() as usize + 3);

    let step = overlay.range(3, 3);
    assert!(matches!(step, RangeStep::Ready(_)));
    assert_eq!(served(step, &inner).as_ref(), &payload[3..6]);
    assert_eq!(overlay.size(), 10);
}

#[test]
fn lazy_sub_source_translates_offsets_and_reports_slice_size() {
    let payload = Bytes::from((0u8..32).collect::<Vec<_>>());
    let inner = Arc::new(BytesLazyByteSource::new(payload.clone()));
    // Slice the middle 16 bytes (offset 8, len 16).
    let sub = LazySubSource::new(Arc::clone(&inner), 8, 16);
    assert_eq!(sub.size(), 16, "sub-source size must equal slice length");

    let got = served(sub.range(0, 4).expect("range(0..4) in slice"), &inner);
    assert_eq!(got.as_ref(), &payload[8..12]);
    let got = served(sub.range(12, 4).expect("range(12..16) in slice"), &inner);
    assert_eq!(got.as_ref(), &payload[20..24]);

    let sync_got = sub.try_get_range_sync(2, 6).expect("sync in slice");
    assert_eq!(sync_got.as_ref(), &payload[10..16]);
}

#[test]
fn lazy_sub_source_out_of_bounds_uses_slice_size_in_error() {
    let payload = Bytes::from(vec![0u8; 32]);
    let inner = Arc::new(BytesLazyByteSource::new(payload));
    let sub = LazySubSource::new(Arc::clone(&inner), 8, 16);
    match sub.range(10, 10) {
        Err(LazyByteSourceError::OutOfBounds { start, len, size }) => {
            assert_eq!(start, 10);
            assert_eq!(len, 10);
            assert_eq!(size, 16, "size must be the slice's, not the inner's");
        }
        Err(other) => panic!("expected OutOfBounds, got {other:?}"),
        Ok(_) => panic!("10+10 overruns the 16-byte slice"),
    }
    assert!(sub.try_get_range_sync(10, 10).is_none());
}

#[test]
fn prefetched_source_overlay_hit_skips_underlying_range_call() {
    let payload = Bytes::from(vec![0u8, 1, 2, 3, 4, 5, 6, 7]);
    let object = Arc::new(BytesLazyByteSource::new(payload.clone()));
    let calls = Cell::new(0usize);
    let underlying = |start: u64, len: u64| {
        calls.set(calls.get() + 1);
        object.range(start, len).expect("range")
    };
    let prefetched = underlying(0, 4);
    assert_eq!(calls.get(), 1);

    let mut overlay = PrefetchedSource::new(Arc::clone(&object));
    overlay.install(0, prefetched);
    let read = |start: u64, len: u64| match overlay.range(start, len) {
        RangeStep::Ready(bytes) => bytes,
        RangeStep::Fetch { start, len } => underlying(start, len),
    };

    let _ = read(1, 2);
    let _ = read(0, 4);
    assert_eq!(calls.get(), 1, "overlay hits must not bump the underlying range counter");

    assert_eq!(read(4, 4).as_ref(), &payload[4..8]);
    assert_eq!(
        calls.get(),
        2,
        "an overlay miss must reach the underlying source exactly once"
    );
}

#[test]
fn the_first_installed_range_that_covers_wins() {
    let object = Arc::new(BytesLazyByteSource::new(Bytes::from(vec![0u8; 8])));
    let mut overlay = PrefetchedSource::new(object);
    overlay.install(2, Bytes::from(vec![7u8, 7]));
    overlay.install(0, Bytes::from(vec![9u8; 8]));
    assert_eq!(overlay.lookup(2, 2).expect("first").as_ref(), &[7, 7]);
    assert_eq!(overlay.lookup(1, 3).expect("second").as_ref(), &[9, 9, 9]);
    assert!(overlay.lookup(6, 3).is_none());
    assert!(overlay.lookup(u64::MAX, 1).is_none());
}

#[test]
fn a_tail_is_the_end_of_the_object() {
    assert_eq!(plan_tail(100, 8), Ok((92, 8)));
    assert_eq!(plan_tail(5, 8), Ok((0, 5)));
    assert_eq!(
        plan_tail(0, 8),
        Err(LazyByteSourceError::OutOfBounds { start: 0, len: 8, size: 0 })
    );
    let src = BytesLazyByteSource::new(Bytes::from(vec![1u8, 2, 3]));
    let (bytes, size) = src.tail(2).expect("tail");
    assert_eq!((bytes.as_ref(), size), (&[2u8, 3][..], 3));
}

fn range(start: usize, end: usize) -> ByteRange {
    ByteRange { start, end }
}

#[test]
fn several_ranges_come_in_the_order_of_the_request() {
    let payload = Bytes::from((0u8..32).collect::<Vec<_>>());
    let memory: Source<BytesLazyByteSource> = Source::InMemory(payload.clone());
    assert_eq!(memory.len(), 32);
    assert!(!memory.is_empty());
    let ranges = [range(30, 32), range(0, 4), range(8, 8)];
    let plan = match memory.get_ranges_parallel(&ranges) {
        Ok(plan) => plan,
        Err(e) => panic!("in bounds, got {e:?}"),
    };
    assert!(plan.pending.is_empty());
    let out = plan.assemble(&[]);
    assert_eq!(out[0].as_ref(), &[30, 31]);
    assert_eq!(out[1].as_ref(), &[0, 1, 2, 3]);
    assert!(out[2].is_empty());
    match memory.get_ranges_parallel(&[range(0, 1), range(20, 40), range(33, 34)]) {
        Err(e) => assert_eq!(e, LazyByteSourceError::OutOfBounds { start: 20, len: 20, size: 32 }),
        Ok(_) => panic!("must be out of bounds"),
    }
}

#[test]
fn pending_ranges_are_filled_in_their_slots() {
    let payload = Bytes::from((0u8..32).collect::<Vec<_>>());
    let object = BytesLazyByteSource::new(payload.clone());
    let plan = RangesPlan {
        slots: vec![None, Some(payload.slice(0..2)), None],
        pending: vec![(0, 5, 3), (2, 20, 1)],
    };
    let fetched: Vec<Bytes> = plan
        .pending
        .iter()
        .map(|&(_, start, len)| object.range(start, len).expect("range"))
        .collect();
    let out = plan.assemble(&fetched);
    assert_eq!(out[0].as_ref(), &[5, 6, 7]);
    assert_eq!(out[1].as_ref(), &[0, 1]);
    assert_eq!(out[2].as_ref(), &[20]);
}

// ---- objects in storage ------------------------------------------------

#[test]
fn a_range_is_checked_once_the_size_is_known() {
    let unknown = StorageRangeSource::with_unknown_size("data/a".to_string());
    assert_eq!(unknown.uri(), "data/a");
    assert_eq!(unknown.size(), 0);
    assert_eq!(unknown.range_end(90, 20), Ok(110));

    let known = StorageRangeSource::with_known_size("data/a".to_string(), 100);
    assert_eq!(known.range_end(90, 10), Ok(100));
    assert_eq!(
        known.range_end(90, 20),
        Err(LazyByteSourceError::OutOfBounds { start: 90, len: 20, size: 100 })
    );
    assert!(known.range_end(u64::MAX, 2).is_err());
}

#[test]
fn the_size_becomes_known_with_the_tail() {
    let mut source = StorageRangeSource::with_unknown_size("data/a".to_string());
    let lost = StorageError::NotFound { uri: "data/a".to_string() };
    assert_eq!(source.tail(Err(lost.clone())), Err(LazyByteSourceError::Storage(lost.clone())));
    assert_eq!(source.size(), 0);
    source.tail(Ok((Bytes::from(vec![9u8; 4]), 64))).expect("tail");
    assert_eq!(source.size(), 64);
    assert!(source.range_end(60, 5).is_err());

    assert_eq!(StorageRangeSource::new("u".to_string(), Ok(7)).expect("head").size(), 7);
    assert!(StorageRangeSource::new("u".to_string(), Err(lost)).is_err());
}

#[test]
fn a_short_reply_is_an_error() {
    let full = StorageRangeSource::range(10, 4, Ok(Bytes::from(vec![1u8, 2, 3, 4])));
    assert_eq!(full.expect("full").as_ref(), &[1, 2, 3, 4]);
    let short = StorageRangeSource::range(10, 4, Ok(Bytes::from(vec![1u8, 2])));
    let err = short.expect_err("short");
    assert_eq!(err, LazyByteSourceError::ShortRead { start: 10, requested: 4, got: 2 });
    assert_eq!(err.message(), "short read: start=10 requested=4 got=2");
    let lost = StorageError::NotFound { uri: "u".to_string() };
    let failed = StorageRangeSource::range(10, 4, Err(lost.clone())).expect_err("failed");
    assert_eq!(failed, LazyByteSourceError::from(lost));
    assert_eq!(failed.message(), "lazy source storage: not found: u");
}

#[test]
fn sources_describe_themselves() {
    let object = Arc::new(BytesLazyByteSource::new(Bytes::from(vec![7u8; 20])));
    let section = LazySubSource::new(object.clone(), 4, 8);
    assert_eq!(section.debug_text(), "LazySubSource { offset: 4, len: 8 }");

    let mut overlay = PrefetchedSource::new(object.clone());
    overlay.install(0, Bytes::from(vec![7u8; 5]));
    overlay.install(10, Bytes::from(vec![7u8; 2]));
    assert_eq!(
        overlay.debug_text(),
        "PrefetchedSource { size: 20, prefetched_count: 2, prefetched_bytes: 7 }"
    );

    let memory: Source<BytesLazyByteSource> = Source::InMemory(Bytes::from(vec![0u8; 3]));
    assert_eq!(memory.debug_text(), "InMemory(3)");
    let lazy = Source::Lazy(object);
    assert_eq!(lazy.debug_text(), "Lazy { .. }");
}

/// A source that has nothing at hand, and counts how often it is asked.
struct Cold {
    size: u64,
    asked: Cell<usize>,
}

impl LazyByteSource for Cold {
    fn size(&self) -> u64 {
        self.size
    }

    fn try_get_range_sync(&self, _start: u64, _len: u64) -> Option<Bytes> {
        self.asked.set(self.asked.get() + 1);
        None
    }
}

#[test]
fn a_cold_source_is_asked_for_each_range_and_then_fetched() {
    let cold = Arc::new(Cold { size: 100, asked: Cell::new(0) });
    let section = LazySubSource::new(cold.clone(), 40, 20);
    assert!(section.try_get_range_sync(5, 5).is_none());
    assert_eq!(cold.asked.get(), 1);
    assert!(section.try_get_range_sync(15, 6).is_none());
    assert_eq!(cold.asked.get(), 1, "outside the section nobody is asked");

    let source = Source::Lazy(cold.clone());
    match source.get_range(range(10, 30)).expect("lazy") {
        RangeStep::Fetch { start, len } => assert_eq!((start, len), (10, 20)),
        RangeStep::Ready(_) => panic!("nothing is at hand"),
    }
    let plan = source.get_ranges_parallel(&[range(0, 1), range(9, 12)]).expect("lazy");
    assert_eq!(plan.pending, vec![(0, 0, 1), (1, 9, 3)]);
    assert!(plan.slots.iter().all(|slot| slot.is_none()));
    assert_eq!(cold.asked.get(), 4);
}
