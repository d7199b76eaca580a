use kiro_rs::health::{probe_outcome, ProbeAttempt};
use std::collections::HashMap;

use kiro_rs::proxy_pool::{ProxyPoolEntry, ProxyPoolError, ProxyPoolManager};

fn entry(id: u32, url: &str, enabled: bool, healthy: bool) -> ProxyPoolEntry {
    ProxyPoolEntry {
        id,
        name: format!("p{}", id),
        url: url.to_string(),
        username: None,
        password: None,
        enabled,
        healthy,
        last_check_at: None,
        latency_ms: None,
        consecutive_failures: 0,
    }
}

fn pool_of(entries: Vec<ProxyPoolEntry>) -> ProxyPoolManager {
    ProxyPoolManager::from_snapshot(entries, HashMap::new())
}

#[test]
fn add_assigns_ids_and_defaults() {
    let mut pool = pool_of(Vec::new());
    let a = pool.add("a".to_string(), "http://a:1".to_string(), None, None).unwrap();
    let b = pool
        .add("b".to_string(), "http://b:1".to_string(), Some("u".to_string()), Some("p".to_string()))
        .unwrap();
    assert_eq!(a.id, 1);
    assert_eq!(b.id, 2);
    assert!(a.enabled && a.healthy);
    assert_eq!(a.consecutive_failures, 0);
    assert!(a.last_check_at.is_none() && a.latency_ms.is_none());
    assert_eq!(b.username.as_deref(), Some("u"));
    assert_eq!(pool.count(), 2);
    let listed = pool.list();
    assert_eq!(listed[1].url, "http://b:1");
}

#[test]
fn add_rejects_duplicate_url_and_still_consumes_id() {
    let mut pool = pool_of(Vec::new());
    pool.add("a".to_string(), "http://a:1".to_string(), None, None).unwrap();
    match pool.add("again".to_string(), "http://a:1".to_string(), None, None) {
        Err(ProxyPoolError::DuplicateUrl { url }) => assert_eq!(url, "http://a:1"),
        Ok(_) => panic!("duplicate URL accepted"),
    }
    assert_eq!(pool.count(), 1);
    let c = pool.add("c".to_string(), "http://c:1".to_string(), None, None).unwrap();
    assert_eq!(c.id, 3);
}

#[test]
fn snapshot_next_id_follows_largest_id() {
    let mut pool = pool_of(vec![entry(7, "http://x", true, true), entry(3, "http://y", true, true)]);
    let e = pool.add("n".to_string(), "http://n".to_string(), None, None).unwrap();
    assert_eq!(e.id, 8);
    let mut empty = pool_of(Vec::new());
    assert_eq!(empty.add("n".to_string(), "http://n".to_string(), None, None).unwrap().id, 1);
}

#[test]
fn update_changes_only_given_fields() {
    let mut pool = pool_of(Vec::new());
    pool.add("a".to_string(), "http://a".to_string(), Some("u".to_string()), Some("p".to_string()))
        .unwrap();
    let updated = pool
        .update(1, Some("renamed".to_string()), None, Some(None), None)
        .unwrap();
    assert_eq!(updated.name, "renamed");
    assert_eq!(updated.url, "http://a");
    assert!(updated.username.is_none());
    assert_eq!(updated.password.as_deref(), Some("p"));
    assert_eq!(pool.list()[0].name, "renamed");
    assert!(pool.update(99, Some("x".to_string()), None, None, None).is_none());
}

#[test]
fn delete_and_set_enabled_report_presence() {
    let mut pool = pool_of(vec![entry(1, "http://a", true, true), entry(2, "http://b", true, true)]);
    assert!(pool.set_enabled(2, false));
    assert!(!pool.list()[1].enabled);
    assert!(!pool.set_enabled(5, true));
    assert!(pool.delete(1));
    assert!(!pool.delete(1));
    assert_eq!(pool.count(), 1);
    assert_eq!(pool.list()[0].id, 2);
}

#[test]
fn next_proxy_cycles_over_usable_entries() {
    let mut pool = pool_of(vec![
        entry(1, "http://a", true, true),
        entry(2, "http://b", false, true),
        entry(3, "http://c", true, true),
        entry(4, "http://d", true, false),
    ]);
    let urls: Vec<String> = (0..5).map(|_| pool.next_proxy().unwrap().url).collect();
    assert_eq!(urls, vec!["http://a", "http://c", "http://a", "http://c", "http://a"]);
}

#[test]
fn next_proxy_none_without_usable_entries() {
    let mut pool = pool_of(vec![entry(1, "http://a", false, true), entry(2, "http://b", true, false)]);
    assert!(pool.next_proxy().is_none());
}

#[test]
fn proxy_config_carries_credentials_only_in_pairs() {
    let mut with_both = entry(1, "http://a", true, true);
    with_both.username = Some("u".to_string());
    with_both.password = Some("p".to_string());
    let mut user_only = entry(2, "http://b", true, true);
    user_only.username = Some("u".to_string());
    let c1 = with_both.proxy_config();
    assert_eq!(c1.username.as_deref(), Some("u"));
    assert_eq!(c1.password.as_deref(), Some("p"));
    let c2 = user_only.proxy_config();
    assert!(c2.username.is_none() && c2.password.is_none());
    assert_eq!(c2.url, "http://b");
}

#[test]
fn rebalance_assigns_least_loaded_with_smallest_id_on_ties() {
    let mut pool = pool_of(vec![entry(2, "http://b", true, true), entry(1, "http://a", true, true)]);
    pool.rebalance(&[10, 11, 12]);
    let b = pool.get_bindings();
    assert_eq!(b.len(), 3);
    assert_eq!(b[&10], 1);
    assert_eq!(b[&11], 2);
    assert_eq!(b[&12], 1);
}

#[test]
fn rebalance_keeps_usable_bindings_and_drops_stale_ones() {
    let mut bindings = HashMap::new();
    bindings.insert(10u64, 2u32);
    bindings.insert(11u64, 3u32);
    bindings.insert(12u64, 1u32);
    let mut pool = ProxyPoolManager::from_snapshot(
        vec![
            entry(1, "http://a", true, true),
            entry(2, "http://b", true, true),
            entry(3, "http://c", false, true),
        ],
        bindings,
    );
    pool.rebalance(&[10, 11, 13]);
    let b = pool.get_bindings();
    assert_eq!(b.len(), 3);
    assert_eq!(b[&10], 2);
    assert!(!b.contains_key(&12));
    assert_eq!(b[&11], 1);
    assert_eq!(b[&13], 1);
}

#[test]
fn rebalance_without_usable_proxies_clears_bindings() {
    let mut bindings = HashMap::new();
    bindings.insert(10u64, 1u32);
    let mut pool = ProxyPoolManager::from_snapshot(vec![entry(1, "http://a", true, false)], bindings);
    pool.rebalance(&[10]);
    assert!(pool.get_bindings().is_empty());
}

#[test]
fn rebalance_twice_changes_nothing() {
    let mut pool = pool_of(vec![
        entry(1, "http://a", true, true),
        entry(2, "http://b", true, true),
        entry(3, "http://c", true, true),
    ]);
    pool.rebalance(&[5, 6, 7, 8, 9]);
    let first = pool.get_bindings();
    pool.rebalance(&[5, 6, 7, 8, 9]);
    assert_eq!(pool.get_bindings(), first);
}

#[test]
fn rebalance_new_bindings_stay_within_one_of_each_other() {
    let mut pool = pool_of(vec![
        entry(1, "http://a", true, true),
        entry(2, "http://b", true, true),
        entry(3, "http://c", true, true),
    ]);
    let creds: Vec<u64> = (100..110).collect();
    pool.rebalance(&creds);
    let b = pool.get_bindings();
    let mut load = [0usize; 4];
    for p in b.values() {
        load[*p as usize] += 1;
    }
    assert_eq!(load[1] + load[2] + load[3], 10);
    assert_eq!((load[1], load[2], load[3]), (4, 3, 3));
}

#[test]
fn sticky_proxy_follows_binding_while_usable() {
    let mut pool = pool_of(vec![entry(1, "http://a", true, true), entry(2, "http://b", true, true)]);
    pool.rebalance(&[10, 11]);
    assert_eq!(pool.next_proxy_for(10).unwrap().url, "http://a");
    assert_eq!(pool.next_proxy_for(11).unwrap().url, "http://b");
    assert!(pool.next_proxy_for(12).is_none());
    pool.set_enabled(2, false);
    assert!(pool.next_proxy_for(11).is_none());
}

#[test]
fn health_targets_are_enabled_entries() {
    let pool = pool_of(vec![
        entry(1, "http://a", true, false),
        entry(2, "http://b", false, true),
        entry(3, "http://c", true, true),
    ]);
    let targets = pool.health_check_targets();
    assert_eq!(targets.len(), 2);
    assert_eq!(targets[0].0, 1);
    assert_eq!(targets[1].0, 3);
    assert_eq!(targets[1].1.url, "http://c");
    assert_eq!(pool.probe_target(2).unwrap().url, "http://b");
    assert!(pool.probe_target(9).is_none());
}

#[test]
fn single_check_records_outcome_and_time() {
    let mut pool = pool_of(vec![entry(1, "http://a", true, true)]);
    let e = pool.record_check(1, false, Some(120)).unwrap();
    assert!(!e.healthy);
    assert_eq!(e.consecutive_failures, 1);
    assert_eq!(e.latency_ms, Some(120));
    let stamp = e.last_check_at.unwrap();
    assert!(stamp.len() >= 20 && stamp.as_bytes()[4] == b'-');
    let e = pool.record_check(1, true, Some(30)).unwrap();
    assert!(e.healthy);
    assert_eq!(e.consecutive_failures, 0);
    assert!(pool.record_check(7, true, None).is_none());
}

#[test]
fn background_round_marks_unhealthy_on_third_failure() {
    let mut pool = pool_of(vec![entry(1, "http://a", true, true)]);
    for round in 1..=3u32 {
        let changed = pool.apply_health_results_at(&[(1, false, None)], "t".to_string());
        let e = &pool.list()[0];
        assert_eq!(e.consecutive_failures, round);
        assert_eq!(e.healthy, round < 3);
        assert_eq!(changed, round == 3);
        assert_eq!(e.last_check_at.as_deref(), Some("t"));
    }
    let changed = pool.apply_health_results_at(&[(1, true, Some(9))], "u".to_string());
    assert!(changed);
    let e = &pool.list()[0];
    assert!(e.healthy);
    assert_eq!(e.consecutive_failures, 0);
    assert_eq!(e.latency_ms, Some(9));
}

#[test]
fn availability_change_rebalances_cached_credentials() {
    let mut pool = pool_of(vec![entry(1, "http://a", true, true), entry(2, "http://b", true, true)]);
    pool.update_eligible_credentials(vec![10, 11]);
    pool.rebalance(&[10, 11]);
    assert_eq!(pool.get_bindings()[&11], 2);
    let mut e = pool.list()[1].clone();
    e.consecutive_failures = 2;
    let mut pool = ProxyPoolManager::from_snapshot(vec![pool.list()[0].clone(), e], pool.get_bindings());
    pool.update_eligible_credentials(vec![10, 11]);
    assert!(pool.apply_health_results(&[(2, false, None)]));
    let b = pool.get_bindings();
    assert_eq!(b[&10], 1);
    assert_eq!(b[&11], 1);
}

#[test]
fn round_fit_check_detects_counter_overflow() {
    let mut full = entry(1, "http://a", true, false);
    full.consecutive_failures = u32::MAX;
    let pool = pool_of(vec![full]);
    assert!(!pool.health_round_fits(&[(1, false, None)]));
    assert!(pool.health_round_fits(&[(1, true, None)]));
    assert!(pool.health_round_fits(&[(2, false, None)]));
}

#[test]
fn round_reports_change_exactly_when_a_health_flag_flips() {
    let mut a = entry(1, "http://a", true, true);
    a.consecutive_failures = 2;
    let b = entry(2, "http://b", true, false);
    let mut pool = pool_of(vec![a, b, entry(3, "http://c", true, true)]);
    let changed = pool.apply_health_results_at(&[(1, false, None), (2, true, None), (3, false, None)], "t".to_string());
    assert!(changed);
    let after = pool.list();
    assert!(!after[0].healthy && after[1].healthy && after[2].healthy);
    let unchanged = pool.apply_health_results_at(&[(3, true, None)], "t".to_string());
    assert!(!unchanged);
}

#[test]
fn round_with_repeated_id_reports_each_flip() {
    let mut e = entry(1, "http://a", true, true);
    e.consecutive_failures = 2;
    let mut pool = pool_of(vec![e]);
    let changed = pool.apply_health_results_at(&[(1, false, None), (1, true, None)], "t".to_string());
    assert!(changed);
    let after = &pool.list()[0];
    assert!(after.healthy);
    assert_eq!(after.consecutive_failures, 0);
}

#[test]
fn probe_outcome_maps_each_attempt() {
    assert_eq!(probe_outcome(ProbeAttempt::ClientUnavailable), (false, None));
    assert_eq!(probe_outcome(ProbeAttempt::Sent { succeeded: true, elapsed_ms: 42 }), (true, Some(42)));
    assert_eq!(probe_outcome(ProbeAttempt::Sent { succeeded: false, elapsed_ms: 15_000 }), (false, Some(15_000)));
    assert_eq!(
        probe_outcome(ProbeAttempt::Sent { succeeded: true, elapsed_ms: (1u128 << 64) + 7 }),
        (true, Some(7))
    );
}

#[test]
fn single_check_time_is_rfc3339() {
    let mut pool = pool_of(vec![entry(1, "http://a", true, true)]);
    let e = pool.record_check(1, true, None).unwrap();
    let stamp = e.last_check_at.unwrap();
    let b = stamp.as_bytes();
    assert!(stamp.starts_with("20"));
    assert_eq!((b[4], b[7], b[10], b[13], b[16]), (b'-', b'-', b'T', b':', b':'));
    assert!(stamp.ends_with("+00:00"));
}
