use thread_safe_cache::engine::ThreadSafeCacheImpl;
use thread_safe_cache::BuilderEmbedded;
use thread_safe_cache::ThreadSafeCacheTrait;

fn build_cache(max_size: i32) -> ThreadSafeCacheImpl {
    let mut builder: BuilderEmbedded = BuilderEmbedded::init();
    builder.max_size(max_size);
    builder.build()
}

#[test]
fn common() {
    let mut cache = build_cache(1000);
    let t0: u64 = 1_000_000;
    cache.put_at("a".to_string(), 1, t0);
    cache.put_exp_at("b".to_string(), 2, 1000, t0);
    assert_eq!(cache.get_at(&"a".to_string(), t0 + 100), Some(1));
    assert_eq!(cache.get_at(&"b".to_string(), t0 + 100), Some(2));
    assert_eq!(cache.get_at(&"b".to_string(), t0 + 100 + 3000), None);
}

#[test]
fn builder_max_size() {
    let mut builder: BuilderEmbedded = BuilderEmbedded::init();
    builder.max_size(2);
    let mut cache = builder.build();
    let t0: u64 = 1_000_000;
    cache.put_at("a".to_string(), 1, t0);
    cache.put_at("b".to_string(), 1, t0 + 100);
    cache.put_at("c".to_string(), 1, t0 + 200);
    cache.put_at("d".to_string(), 1, t0 + 300);
    assert_eq!(cache.get_at(&"a".to_string(), t0 + 300), None);
    assert_eq!(cache.get_at(&"b".to_string(), t0 + 300), None);
    assert_eq!(cache.get_at(&"c".to_string(), t0 + 300), Some(1));
    assert_eq!(cache.get_at(&"d".to_string(), t0 + 300), Some(1));
}

#[test]
fn save_test() {
    let mut cache = build_cache(1000);
    let t0: u64 = 1_000_000;
    cache.put_at("a".to_string(), 1, t0);
    let blob = cache.save_bytes();

    let mut cache_clean = build_cache(1000);
    cache_clean.load_bytes(blob.as_slice()).unwrap();
    assert_eq!(cache_clean.get_at(&"a".to_string(), t0 + 100), Some(1));
}

#[test]
fn capacity_never_exceeded() {
    let mut cache = build_cache(2);
    let t0: u64 = 5_000;
    cache.put_at("a".to_string(), 1, t0);
    cache.put_at("b".to_string(), 2, t0 + 1);
    cache.put_at("c".to_string(), 3, t0 + 2);
    assert!(cache.current_size <= 2);
    assert_eq!(cache.get_at(&"c".to_string(), t0 + 2), Some(3));
}

#[test]
fn ttl_exact_boundary() {
    let mut cache = build_cache(100);
    let t0: u64 = 1_000_000;
    cache.put_exp_at("b".to_string(), 2, 1000, t0);
    // still live strictly before the expiry, a miss from the expiry on
    assert_eq!(cache.get_at(&"b".to_string(), t0 + 999), Some(2));
    assert_eq!(cache.get_at(&"b".to_string(), t0 + 1000), None);
}

#[test]
fn overwrite_moves_expiry() {
    let mut cache = build_cache(100);
    let t0: u64 = 1_000_000;
    cache.put_exp_at("k".to_string(), 1, 100, t0);
    cache.put_exp_at("k".to_string(), 2, 10_000, t0);
    assert_eq!(cache.current_size, 1);
    assert_eq!(cache.get_at(&"k".to_string(), t0 + 5_000), Some(2));
}

#[test]
fn idempotent_remove() {
    let mut cache = build_cache(100);
    let t0: u64 = 1_000_000;
    cache.put_at("a".to_string(), 1, t0);
    assert_eq!(cache.current_size, 1);
    cache.remove_key(&"missing".to_string());
    assert_eq!(cache.current_size, 1);
    cache.remove_key(&"a".to_string());
    assert_eq!(cache.current_size, 0);
    cache.remove_key(&"a".to_string());
    assert_eq!(cache.current_size, 0);
}

#[test]
fn exists_ignores_expiry() {
    let mut cache = build_cache(100);
    let t0: u64 = 1_000_000;
    cache.put_exp_at("a".to_string(), 1, 100, t0);
    // expired but not yet swept: a read misses, the membership test does not
    assert_eq!(cache.get_at(&"a".to_string(), t0 + 500), None);
    assert!(cache.has_key(&"a".to_string()));
}

#[test]
fn sweeper_clean() {
    let mut cache = build_cache(100);
    let t0: u64 = 1_000_000;
    cache.put_exp_at("a".to_string(), 1, 100, t0);
    cache.put_exp_at("b".to_string(), 2, 10_000, t0);
    cache.clean_at(t0 + 5_000);
    assert!(!cache.has_key(&"a".to_string()));
    assert!(cache.has_key(&"b".to_string()));
    assert_eq!(cache.current_size, 1);
}

#[test]
fn sweeper_stops_when_last_handle() {
    assert!(!thread_safe_cache::engine::sweeper_should_continue(1));
    assert!(thread_safe_cache::engine::sweeper_should_continue(2));
    assert!(!thread_safe_cache::engine::sweeper_should_continue(0));
}

#[test]
fn trait_real_clock() {
    let mut cache = build_cache(100);
    cache.put("k".to_string(), 5);
    assert_eq!(cache.get("k".to_string()), Some(5));
    assert!(cache.exists_key("k".to_string()));
    cache.put_exp("e".to_string(), 9, 60_000);
    assert_eq!(cache.get("e".to_string()), Some(9));
    cache.rm("k".to_string());
    assert_eq!(cache.get("k".to_string()), None);
}

#[test]
fn eviction_takes_whole_bucket() {
    let mut cache = build_cache(2);
    let t0: u64 = 1_000_000;
    // two keys sharing one expiry timestamp form one bucket
    cache.put_exp_at("x".to_string(), 1, 500, t0);
    cache.put_exp_at("y".to_string(), 2, 500, t0);
    // at capacity, the whole earliest-expiring bucket is evicted together
    cache.put_at("z".to_string(), 3, t0 + 10);
    assert!(!cache.has_key(&"x".to_string()));
    assert!(!cache.has_key(&"y".to_string()));
    assert_eq!(cache.get_at(&"z".to_string(), t0 + 10), Some(3));
    assert_eq!(cache.current_size, 1);
}

#[test]
fn negative_capacity_never_evicts() {
    let mut cache = build_cache(-1);
    let t0: u64 = 1_000;
    cache.put_at("a".to_string(), 1, t0);
    cache.put_at("b".to_string(), 2, t0 + 1);
    assert_eq!(cache.current_size, 2);
    assert_eq!(cache.get_at(&"a".to_string(), t0 + 5), Some(1));
}

#[test]
fn zero_expiry_is_never_expires() {
    let mut cache = build_cache(100);
    // an absolute expiry of exactly zero is the non-expiring sentinel
    cache.put_exp_at("s".to_string(), 7, 0, 0);
    assert_eq!(cache.get_at(&"s".to_string(), u64::MAX), Some(7));
    cache.clean_at(u64::MAX);
    assert!(cache.has_key(&"s".to_string()));
    // a zero time-to-live at a nonzero time expires immediately
    cache.put_exp_at("t".to_string(), 8, 0, 1_000);
    assert_eq!(cache.get_at(&"t".to_string(), 1_000), None);
}

#[test]
fn default_ttl_outlives_test_durations() {
    let mut cache = build_cache(100);
    let t0: u64 = 1_000_000;
    cache.put_at("k".to_string(), 4, t0);
    // three and a half days later the entry is still there
    assert_eq!(cache.get_at(&"k".to_string(), t0 + 300_000_000), Some(4));
}

#[test]
fn builder_default_capacity() {
    let builder: BuilderEmbedded = BuilderEmbedded::init();
    assert_eq!(builder.max_size, 1000);
    let cache = builder.build();
    assert_eq!(cache.max_size, 1000);
    assert_eq!(cache.current_size, 0);
}
