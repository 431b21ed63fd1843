//! The cache debugger and the allocator's books.
use dbstrike::memtrack::{
    bucket_of, record_alloc, record_free, report, rss_bytes, set_tracking, snapshot,
    tracking_enabled, MemSnapshot, TrackingAlloc,
};
use dbstrike::mitm::{CacheDebugger, Verdict};
use dbstrike::store::Store;

#[test]
fn detects_stale_read() {
    let mut source = Store::new();
    let mut d = CacheDebugger::new(100);
    // source has v1, cache populated fresh
    d.source_set(&mut source, "user:1", b"alice");
    d.cache_set("user:1", b"alice");
    let (_, v) = d.cache_get(&source, "user:1");
    assert_eq!(v, Verdict::Hit);

    // source updated but cache NOT invalidated -> stale bug
    d.source_set(&mut source, "user:1", b"alice-v2");
    let (val, v) = d.cache_get(&source, "user:1");
    assert_eq!(v, Verdict::StaleHit);
    assert_eq!(val, Some(b"alice".to_vec())); // served the stale value
    assert_eq!(d.bugs().len(), 1);
    assert!(d.report()[0].contains("STALE"));
}

#[test]
fn detects_phantom() {
    let mut source = Store::new();
    let mut d = CacheDebugger::new(100);
    d.source_set(&mut source, "k", b"v");
    d.cache_set("k", b"v");
    d.source_del(&mut source, "k"); // gone from source, still in cache
    let (_, v) = d.cache_get(&source, "k");
    assert_eq!(v, Verdict::Phantom);
}

#[test]
fn correct_invalidation_no_bug() {
    let mut source = Store::new();
    let mut d = CacheDebugger::new(100);
    d.source_set(&mut source, "k", b"v1");
    d.cache_set("k", b"v1");
    d.source_set(&mut source, "k", b"v2");
    d.cache_invalidate("k"); // proper write-through invalidation
    let (val, v) = d.cache_get(&source, "k");
    assert_eq!(v, Verdict::Miss);
    assert_eq!(val, None);
    assert_eq!(d.bugs().len(), 0);
}

#[test]
fn traces_are_bounded_and_cleared() {
    let mut source = Store::new();
    let mut d = CacheDebugger::new(3);
    for i in 0..20u8 {
        d.source_set(&mut source, "k", &[i]);
        d.cache_get(&source, "k");
    }
    assert_eq!(d.traces().len(), 16);
    assert_eq!(d.source_get(&source, "k"), Some(vec![19]));
    d.clear();
    assert!(d.traces().is_empty());
    assert_eq!(Verdict::Phantom.as_str(), "PHANTOM");
    assert!(Verdict::StaleHit.is_bug() && Verdict::Phantom.is_bug());
    assert!(!Verdict::Hit.is_bug() && !Verdict::Miss.is_bug());
}

#[test]
fn tracks_live_and_peak() {
    let mut books = TrackingAlloc::new();
    assert!(!tracking_enabled(&books), "tracking must default to off");
    set_tracking(&mut books, true);
    assert!(tracking_enabled(&books), "set_tracking(true) must enable tracking");

    let before = snapshot(&books);
    record_alloc(&mut books, 4 * 1024 * 1024);
    let during = snapshot(&books);
    assert!(
        during.live_bytes > before.live_bytes,
        "a 4 MB allocation must move live bytes"
    );
    record_free(&mut books, 4 * 1024 * 1024);
    let after = snapshot(&books);
    assert!(
        after.live_bytes < during.live_bytes,
        "freeing must bring live bytes back down"
    );
    assert!(after.peak_bytes >= during.live_bytes, "peak is a high-water mark");

    // Turning it back off must stop the books from moving.
    set_tracking(&mut books, false);
    record_alloc(&mut books, 64);
    assert_eq!(snapshot(&books).total_allocs, after.total_allocs);
}

#[test]
fn tracking_off_allocations_are_not_counted() {
    let mut books = TrackingAlloc::new();
    let off_before = snapshot(&books);
    record_alloc(&mut books, 1024 * 1024);
    let off_after = snapshot(&books);
    assert_eq!(
        off_before.total_allocs, off_after.total_allocs,
        "allocations must not be counted while tracking is off"
    );
    assert!(!tracking_enabled(&books), "tracking must stay off after this test");
}

#[test]
fn buckets_classify_by_size() {
    assert_eq!(bucket_of(1), 0);
    assert_eq!(bucket_of(32), 0);
    assert_eq!(bucket_of(33), 1);
    assert_eq!(bucket_of(2048), 2);
    assert_eq!(bucket_of(9_000_000), 7);
}

#[test]
fn books_report_differences() {
    let mut books = TrackingAlloc::new();
    set_tracking(&mut books, true);
    let base = snapshot(&books);
    record_alloc(&mut books, 100);
    record_alloc(&mut books, 50);
    record_free(&mut books, 100);
    let now = snapshot(&books);
    assert_eq!(now.since(&base), 50);
    assert_eq!(now.live_objects, 1);
    assert_eq!(now.total_allocs, 2);
    assert_eq!(now.buckets[1], 2);
    assert_eq!(rss_bytes("Name: x\nVmRSS:\t  12 kB\n"), 12 * 1024);
    assert_eq!(rss_bytes("nothing"), 0);
    assert!(report(&snapshot(&books), "tag", "0.0", "0.1", "50", "0.0", "0.0").contains("tag"));
    assert!(now.line("here", "0.0", "0.1", "50").contains("here"));
    assert!(!now.histogram().is_empty());
}

#[test]
fn the_classes_hold_every_allocation() {
    let mut books = TrackingAlloc::new();
    set_tracking(&mut books, true);
    for size in [1, 40, 40, 3000, 9_000_000] {
        record_alloc(&mut books, size);
        record_free(&mut books, size);
    }
    set_tracking(&mut books, false);
    record_alloc(&mut books, 1);
    let now = snapshot(&books);
    assert_eq!(now.buckets, [1, 2, 0, 1, 0, 0, 0, 1]);
    assert_eq!(now.buckets.iter().sum::<usize>(), now.total_allocs);
}

#[test]
fn a_fresh_snapshot_is_empty() {
    let z = MemSnapshot::default();
    assert_eq!((z.live_bytes, z.peak_bytes, z.live_objects, z.total_allocs), (0, 0, 0, 0));
    assert_eq!(z.buckets, [0usize; 8]);
}

#[test]
fn readings_grow_or_stand_still() {
    let mut books = TrackingAlloc::new();
    let z = snapshot(&books);
    record_alloc(&mut books, 10);
    let still = snapshot(&books);
    assert_eq!((still.total_allocs, still.peak_bytes), (z.total_allocs, z.peak_bytes));
    set_tracking(&mut books, true);
    record_alloc(&mut books, 300);
    let one = snapshot(&books);
    record_free(&mut books, 300);
    record_alloc(&mut books, 20);
    let two = snapshot(&books);
    assert!(two.live_bytes <= two.peak_bytes && one.peak_bytes <= two.peak_bytes);
    assert!(one.total_allocs <= two.total_allocs);
    assert_eq!(two.buckets.iter().sum::<usize>(), two.total_allocs);
}
