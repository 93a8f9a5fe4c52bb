use blocklist::cache::BlockCache;
use blocklist::command::FirewallCommand;
use blocklist::config::NANOS_PER_MINUTE;
use blocklist::handles::HandleTable;
use blocklist::sweep::{needs_handles, sweep, Eviction};

fn eviction(address: &str, last_seen: u64, handle: Option<&str>) -> Eviction {
    Eviction {
        address: address.to_string(),
        last_seen,
        handle: handle.map(|h| h.to_string()),
    }
}

#[test]
fn sweep_of_an_empty_cache_does_nothing() {
    let mut cache = BlockCache::new();
    let handles = HandleTable::new();
    assert!(sweep(&mut cache, &handles, 1000, 300, 100).is_empty());
    assert!(cache.is_empty());
}

#[test]
fn sweep_revokes_what_expired_and_spares_the_rest() {
    let mut cache = BlockCache::new();
    cache.insert_or_renew("10.0.0.1", 100);
    cache.insert_or_renew("10.0.0.2", 800);
    cache.insert_or_renew("10.0.0.3", 200);
    let handles = HandleTable::from_listing(
        "ip saddr 10.0.0.1 drop # handle 4\nip saddr 10.0.0.2 drop # handle 5\nip saddr 10.0.0.3 drop # handle 6\n",
    );
    let evictions = sweep(&mut cache, &handles, 1000, 300, 100);
    assert_eq!(
        evictions,
        vec![eviction("10.0.0.1", 100, Some("4")), eviction("10.0.0.3", 200, Some("6"))]
    );
    assert_eq!(cache.addresses(), vec!["10.0.0.2"]);
    assert_eq!(cache.get("10.0.0.2"), Some(800));
    assert_eq!(cache.get("10.0.0.1"), None);
    assert_eq!(cache.get("10.0.0.3"), None);
}

#[test]
fn an_entry_leaves_the_cache_even_without_a_handle() {
    let mut cache = BlockCache::new();
    cache.insert_or_renew("10.0.0.1", 100);
    let handles = HandleTable::new();
    let evictions = sweep(&mut cache, &handles, 1000, 300, 100);
    assert_eq!(evictions, vec![eviction("10.0.0.1", 100, None)]);
    assert_eq!(evictions[0].command(), None);
    assert!(cache.is_empty());
}

#[test]
fn an_entry_at_exactly_the_ttl_stays() {
    let mut cache = BlockCache::new();
    cache.insert_or_renew("edge", 700);
    cache.insert_or_renew("over", 699);
    let handles = HandleTable::new();
    let evictions = sweep(&mut cache, &handles, 1000, 300, 100);
    assert_eq!(evictions, vec![eviction("over", 699, None)]);
    assert_eq!(cache.addresses(), vec!["edge"]);
}

#[test]
fn an_entry_ahead_of_the_clock_stays() {
    let mut cache = BlockCache::new();
    cache.insert_or_renew("ahead", 5000);
    let handles = HandleTable::new();
    assert!(sweep(&mut cache, &handles, 1000, 0, 100).is_empty());
    assert_eq!(cache.get("ahead"), Some(5000));
}

#[test]
fn sweep_stops_at_the_cap() {
    let mut cache = BlockCache::new();
    for i in 0..10 {
        cache.insert_or_renew(&format!("10.0.0.{}", i), i);
    }
    let handles = HandleTable::new();
    let evictions = sweep(&mut cache, &handles, 1000, 300, 3);
    assert_eq!(
        evictions,
        vec![eviction("10.0.0.0", 0, None), eviction("10.0.0.1", 1, None), eviction("10.0.0.2", 2, None)]
    );
    assert_eq!(cache.len(), 7);
    assert_eq!(
        cache.addresses(),
        vec!["10.0.0.3", "10.0.0.4", "10.0.0.5", "10.0.0.6", "10.0.0.7", "10.0.0.8", "10.0.0.9"]
    );
}

#[test]
fn the_cap_counts_only_expired_entries() {
    let mut cache = BlockCache::new();
    cache.insert_or_renew("fresh-1", 900);
    cache.insert_or_renew("old-1", 1);
    cache.insert_or_renew("fresh-2", 950);
    cache.insert_or_renew("old-2", 2);
    cache.insert_or_renew("old-3", 3);
    let handles = HandleTable::new();
    let evictions = sweep(&mut cache, &handles, 1000, 300, 2);
    assert_eq!(evictions, vec![eviction("old-1", 1, None), eviction("old-2", 2, None)]);
    assert_eq!(cache.addresses(), vec!["fresh-1", "fresh-2", "old-3"]);
}

#[test]
fn later_sweeps_take_what_the_cap_held_back() {
    let mut cache = BlockCache::new();
    for i in 0..5 {
        cache.insert_or_renew(&format!("a{}", i), 0);
    }
    let handles = HandleTable::new();
    assert_eq!(sweep(&mut cache, &handles, 1000, 300, 2).len(), 2);
    assert_eq!(sweep(&mut cache, &handles, 1000, 300, 2).len(), 2);
    assert_eq!(sweep(&mut cache, &handles, 1000, 300, 2).len(), 1);
    assert_eq!(sweep(&mut cache, &handles, 1000, 300, 2).len(), 0);
    assert!(cache.is_empty());
}

#[test]
fn a_cap_of_zero_revokes_nothing() {
    let mut cache = BlockCache::new();
    cache.insert_or_renew("old", 0);
    let handles = HandleTable::new();
    assert!(sweep(&mut cache, &handles, 1000, 300, 0).is_empty());
    assert_eq!(cache.get("old"), Some(0));
}

#[test]
fn a_cap_of_one_hundred_leaves_the_hundred_and_first() {
    let mut cache = BlockCache::new();
    for i in 0..150 {
        cache.insert_or_renew(&format!("10.0.{}.1", i), 0);
    }
    let handles = HandleTable::new();
    let evictions = sweep(&mut cache, &handles, 1000, 300, 100);
    assert_eq!(evictions.len(), 100);
    assert_eq!(cache.len(), 50);
    assert_eq!(evictions[99].address, "10.0.99.1");
    assert_eq!(cache.addresses()[0], "10.0.100.1");
}

#[test]
fn the_handle_of_the_last_listed_rule_is_reported() {
    let mut cache = BlockCache::new();
    cache.insert_or_renew("10.0.0.1", 0);
    let handles = HandleTable::from_listing(
        "ip saddr 10.0.0.1 drop # handle 4\nip saddr 10.0.0.1 drop # handle 8\n",
    );
    let evictions = sweep(&mut cache, &handles, 1000, 300, 100);
    assert_eq!(evictions, vec![eviction("10.0.0.1", 0, Some("8"))]);
    assert_eq!(
        evictions[0].command(),
        Some(FirewallCommand::DeleteRule { handle: "8".to_string() })
    );
}

#[test]
fn an_eviction_with_an_empty_handle_has_no_command() {
    assert_eq!(eviction("a", 0, Some("")).command(), None);
    assert_eq!(eviction("a", 0, None).command(), None);
    assert_eq!(
        eviction("a", 0, Some("3")).command(),
        Some(FirewallCommand::DeleteRule { handle: "3".to_string() })
    );
}

#[test]
fn minutes_blocked_counts_whole_minutes() {
    let e = eviction("a", 1_000, None);
    assert_eq!(NANOS_PER_MINUTE, 60_000_000_000);
    assert_eq!(e.minutes_blocked(1_000), 0);
    assert_eq!(e.minutes_blocked(1_000 + NANOS_PER_MINUTE - 1), 0);
    assert_eq!(e.minutes_blocked(1_000 + NANOS_PER_MINUTE), 1);
    assert_eq!(e.minutes_blocked(1_000 + 5 * NANOS_PER_MINUTE + 7), 5);
    assert_eq!(e.minutes_blocked(0), 0);
}

#[test]
fn handles_are_needed_only_when_something_expired() {
    let mut cache = BlockCache::new();
    assert!(!needs_handles(&cache, 1000, 300));
    cache.insert_or_renew("fresh", 800);
    cache.insert_or_renew("edge", 700);
    cache.insert_or_renew("ahead", 5000);
    assert!(!needs_handles(&cache, 1000, 300));
    cache.insert_or_renew("old", 699);
    assert!(needs_handles(&cache, 1000, 300));
    assert!(!needs_handles(&cache, 1000, 301));
    assert_eq!(cache.len(), 4);
}
