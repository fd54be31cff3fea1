use abyss::geo::{
    backoff_delay_secs, pending_lookups, GeoCache, GeoInfo, GeoScheduler, GEO_CACHE_MAX_SIZE,
    GEO_CACHE_TTL_MS,
};

fn info(city: &str) -> GeoInfo {
    GeoInfo {
        lat_e2: 3775,
        lng_e2: -12242,
        city: city.to_string(),
        country: "US".to_string(),
        asn: "AS15169".to_string(),
        org: "Google LLC".to_string(),
    }
}

#[test]
fn backoff_doubles_up_to_the_ceiling() {
    assert_eq!(backoff_delay_secs(1), 3);
    assert_eq!(backoff_delay_secs(2), 6);
    assert_eq!(backoff_delay_secs(3), 12);
    assert_eq!(backoff_delay_secs(4), 24);
    assert_eq!(backoff_delay_secs(5), 30);
    assert_eq!(backoff_delay_secs(40), 30);
    assert_eq!(backoff_delay_secs(u32::MAX), 30);
}

#[test]
fn scheduler_backs_off_and_resets_on_success() {
    let mut s = GeoScheduler::new();
    assert!(s.may_dispatch(0));
    s.dispatched();
    assert!(!s.may_dispatch(0));
    s.completed(false, 1_000);
    assert_eq!(s.failures, 1);
    assert_eq!(s.backoff_until, Some(4_000));
    assert!(!s.may_dispatch(3_999));
    assert!(s.may_dispatch(4_000));
    s.dispatched();
    s.completed(false, 5_000);
    assert_eq!(s.failures, 2);
    assert_eq!(s.backoff_until, Some(11_000));
    s.dispatched();
    s.completed(true, 12_000);
    assert_eq!(s.failures, 0);
    assert_eq!(s.backoff_until, None);
    assert!(s.may_dispatch(12_000));
}

#[test]
fn cached_outcome_served_until_expiry() {
    let mut c = GeoCache::new();
    c.insert("8.8.8.8".to_string(), Some(info("Mountain View")), 1_000);
    let hit = c.get(&"8.8.8.8".to_string(), 1_000 + GEO_CACHE_TTL_MS - 1);
    assert_eq!(hit.unwrap().unwrap().city, "Mountain View");
    assert_eq!(c.entries[0].last_access, 1_000 + GEO_CACHE_TTL_MS - 1);
    let ips = vec!["8.8.8.8".to_string()];
    assert!(pending_lookups(&c, &ips, 1_000 + GEO_CACHE_TTL_MS - 1).is_empty());
    let later = 1_000 + GEO_CACHE_TTL_MS;
    assert_eq!(pending_lookups(&c, &ips, later), ips);
    assert!(c.get(&"8.8.8.8".to_string(), later).is_none());
    assert_eq!(c.len(), 0);
}

#[test]
fn negative_outcome_is_cached() {
    let mut c = GeoCache::new();
    c.insert("203.0.113.9".to_string(), None, 0);
    assert_eq!(c.lookup(&"203.0.113.9".to_string(), 10).map(|v| v.is_none()), Some(true));
    assert!(pending_lookups(&c, &vec!["203.0.113.9".to_string()], 10).is_empty());
}

#[test]
fn insert_replaces_existing_entry() {
    let mut c = GeoCache::new();
    c.insert("1.1.1.1".to_string(), None, 0);
    c.insert("1.1.1.1".to_string(), Some(info("Sydney")), 50);
    assert_eq!(c.len(), 1);
    assert_eq!(c.entries[0].expires_at, 50 + GEO_CACHE_TTL_MS);
}

#[test]
fn pending_skips_private_duplicate_and_fresh() {
    let mut c = GeoCache::new();
    c.insert("9.9.9.9".to_string(), None, 0);
    let ips: Vec<String> = ["10.0.0.1", "1.1.1.1", "9.9.9.9", "1.1.1.1", "8.8.8.8", "127.0.0.1"]
        .iter()
        .map(|s| s.to_string())
        .collect();
    assert_eq!(pending_lookups(&c, &ips, 5), vec!["1.1.1.1".to_string(), "8.8.8.8".to_string()]);
}

#[test]
fn pending_batch_is_capped() {
    let c = GeoCache::new();
    let ips: Vec<String> = (0..250).map(|i| format!("8.8.{}.{}", i / 200, i % 200)).collect();
    let batch = pending_lookups(&c, &ips, 0);
    assert_eq!(batch.len(), 100);
    assert_eq!(batch[0], "8.8.0.0");
    assert_eq!(batch[99], "8.8.0.99");
}

#[test]
fn prune_drops_expired_entries() {
    let mut c = GeoCache::new();
    c.insert("1.0.0.1".to_string(), None, 0);
    c.insert("1.0.0.2".to_string(), None, 100);
    c.prune(GEO_CACHE_TTL_MS);
    assert_eq!(c.len(), 1);
    assert_eq!(c.entries[0].ip, "1.0.0.2");
}

#[test]
fn prune_evicts_least_recently_accessed_overflow() {
    let mut c = GeoCache::new();
    let extra = 3;
    for i in 0..(GEO_CACHE_MAX_SIZE + extra) {
        c.insert(format!("ip{i}"), None, 1_000 + i as u64);
    }
    // make the three oldest recent again, so the next three are the oldest
    for i in 0..extra {
        c.get(&format!("ip{i}"), 100_000);
    }
    c.prune(100_000);
    assert_eq!(c.len(), GEO_CACHE_MAX_SIZE);
    for i in 0..extra {
        assert!(c.lookup(&format!("ip{i}"), 100_000).is_some());
    }
    for i in extra..(2 * extra) {
        assert!(c.lookup(&format!("ip{i}"), 100_000).is_none());
    }
    assert!(c.lookup(&format!("ip{}", 2 * extra), 100_000).is_some());
}
