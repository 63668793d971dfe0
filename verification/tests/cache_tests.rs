use dns_nftsetter::cache::{CnameCache, MAX_TTL, MIN_TTL};

const SEC: u64 = 1_000_000_000;

#[test]
fn test_cname_resolution() {
    let mut cache = CnameCache::new(5);
    cache.insert("b.com".to_string(), "a.com".to_string(), 120);
    cache.insert("c.com".to_string(), "b.com".to_string(), 120);

    // Recursive resolution
    assert_eq!(cache.resolve("c.com"), "a.com".to_string());
    assert_eq!(cache.resolve("b.com"), "a.com".to_string());
    // Unmapped remains unchanged
    assert_eq!(cache.resolve("d.com"), "d.com".to_string());
}

#[test]
fn test_cname_cache_eviction() {
    let mut cache = CnameCache::new(2);
    cache.insert("b.com".to_string(), "a.com".to_string(), 120);
    cache.insert("c.com".to_string(), "b.com".to_string(), 120);
    // Now capacity is full (2 items: b.com, c.com)
    assert_eq!(cache.resolve("c.com"), "a.com".to_string());
    // resolve("c.com") touched c.com, then b.com: c.com is now the least
    // recently used entry.

    // Insert third item. Since c.com is LRU, c.com should be evicted.
    cache.insert("d.com".to_string(), "c.com".to_string(), 120);

    // c.com is evicted, so resolving it returns "c.com" itself
    assert_eq!(cache.resolve("c.com"), "c.com".to_string());
    // d.com traces to c.com. Since c.com is evicted, resolve("d.com") returns "c.com"
    assert_eq!(cache.resolve("d.com"), "c.com".to_string());
    // b.com is still in the cache, so it resolves to a.com
    assert_eq!(cache.resolve("b.com"), "a.com".to_string());
}

#[test]
fn test_cname_loop_prevention() {
    let mut cache = CnameCache::new(2);
    cache.insert("a.com".to_string(), "b.com".to_string(), 120);
    cache.insert("b.com".to_string(), "a.com".to_string(), 120); // Loop!

    // Should not hang, should exit before MAX_CNAME_DEPTH
    let result = cache.resolve("a.com");
    assert!(result == "a.com" || result == "b.com");
}

#[test]
fn test_cname_expiration_and_refresh() {
    let mut cache = CnameCache::new(5);
    // Insert with 1 second TTL: the lifetime is raised to MIN_TTL.
    cache.insert_at("b.com".to_string(), "a.com".to_string(), 1, 0);

    // Before the lifetime ends, it resolves successfully.
    assert_eq!(cache.resolve_at("b.com", 0), "a.com".to_string());

    // 1.2 seconds past the (clamped) lifetime.
    let later = (MIN_TTL as u64) * SEC + 1_200_000_000;

    // After expiration, resolve returns the domain itself (the expired
    // mapping is deleted).
    assert_eq!(cache.resolve_at("b.com", later), "b.com".to_string());
}

#[test]
fn active_mapping_is_refreshed() {
    let mut cache = CnameCache::new(5);
    cache.insert_at("b.com".to_string(), "a.com".to_string(), 1, 0);
    // Still alive just before MIN_TTL; the lookup refreshes it.
    assert_eq!(cache.resolve_at("b.com", (MIN_TTL as u64) * SEC - 1), "a.com".to_string());
    // So it lives MIN_TTL seconds more from there.
    assert_eq!(cache.resolve_at("b.com", (2 * MIN_TTL as u64) * SEC - 2), "a.com".to_string());
    // Left alone for longer than its lifetime, it expires and stays gone.
    assert_eq!(cache.resolve_at("b.com", (3 * MIN_TTL as u64) * SEC), "b.com".to_string());
    assert_eq!(cache.resolve_at("b.com", (3 * MIN_TTL as u64) * SEC + 1), "b.com".to_string());
}

#[test]
fn zero_capacity_holds_one_mapping() {
    let mut cache = CnameCache::new(0);
    cache.insert_at("b.com".to_string(), "a.com".to_string(), 120, 0);
    assert_eq!(cache.resolve_at("b.com", 1), "a.com".to_string());
    cache.insert_at("d.com".to_string(), "c.com".to_string(), 120, 2);
    assert_eq!(cache.resolve_at("b.com", 3), "b.com".to_string());
    assert_eq!(cache.resolve_at("d.com", 3), "c.com".to_string());
}

#[test]
fn names_are_lowercased() {
    let mut cache = CnameCache::new(4);
    cache.insert_at("CDN.Example.COM".to_string(), "WWW.Example.com".to_string(), 300, 0);
    assert_eq!(cache.resolve_at("cdn.example.com", 1), "www.example.com".to_string());
    assert_eq!(cache.resolve_at("Cdn.EXAMPLE.com", 1), "www.example.com".to_string());
    assert_eq!(cache.resolve_at("Other.COM", 1), "other.com".to_string());
}

#[test]
fn ttl_is_capped_at_max() {
    let mut cache = CnameCache::new(4);
    cache.insert_at("b.com".to_string(), "a.com".to_string(), u32::MAX, 0);
    let limit = (MAX_TTL as u64) * SEC;
    assert_eq!(cache.resolve_at("b.com", limit), "a.com".to_string());
    // Refreshed at `limit`: alive until 2 * limit.
    assert_eq!(cache.resolve_at("b.com", 2 * limit + 1), "b.com".to_string());
}

#[test]
fn reinsert_of_other_original_replaces_mapping() {
    let mut cache = CnameCache::new(4);
    cache.insert_at("b.com".to_string(), "a.com".to_string(), 120, 0);
    cache.insert_at("b.com".to_string(), "z.com".to_string(), 120, 1);
    assert_eq!(cache.resolve_at("b.com", 2), "z.com".to_string());
}

#[test]
fn reinsert_of_same_original_renews_lifetime() {
    let mut cache = CnameCache::new(4);
    cache.insert_at("b.com".to_string(), "a.com".to_string(), 100, 0);
    cache.insert_at("b.com".to_string(), "a.com".to_string(), 100, 50 * SEC);
    assert_eq!(cache.resolve_at("b.com", 149 * SEC), "a.com".to_string());
}

#[test]
fn resolution_follows_at_most_ten_links() {
    let mut cache = CnameCache::new(32);
    // n11 -> n10 -> ... -> n0
    for i in 1..=11u32 {
        cache.insert_at(format!("n{}.com", i), format!("n{}.com", i - 1), 300, 0);
    }
    assert_eq!(cache.resolve_at("n10.com", 1), "n0.com".to_string());
    assert_eq!(cache.resolve_at("n11.com", 1), "n1.com".to_string());
}

#[test]
fn clock_readings_never_go_back() {
    let mut cache = CnameCache::new(1);
    let a = cache.now();
    let b = cache.now();
    assert!(a <= b);
    assert!(b <= dns_nftsetter::cache::MAX_NOW);
}

#[test]
fn lowered_names_are_used_as_given() {
    let mut cache = CnameCache::new(4);
    cache.insert_lowered_at("cdn.example.com".to_string(), "www.example.com".to_string(), 300, 0);
    assert_eq!(cache.resolve_lowered_at("cdn.example.com".to_string(), 1), "www.example.com");
    // No lowercasing here: an upper-case name is another name.
    assert_eq!(cache.resolve_lowered_at("CDN.example.com".to_string(), 1), "CDN.example.com");
    assert_eq!(cache.resolve_at("CDN.example.com", 1), "www.example.com");
}
