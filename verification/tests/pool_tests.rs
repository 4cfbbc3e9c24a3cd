use browser_core::proxy::{FreeProxy, ProxyManager, ProxyType};
use browser_core::unix_timestamp;

fn proxy(ip: &str, port: u16, working: bool) -> FreeProxy {
    FreeProxy {
        ip: ip.to_string(),
        port,
        proxy_type: ProxyType::Http,
        country: "United States".to_string(),
        country_code: "US".to_string(),
        anonymity: "elite".to_string(),
        speed: 50,
        uptime_permille: 900,
        last_checked: unix_timestamp(),
        provider: "test_provider".to_string(),
        is_working: working,
    }
}

#[test]
fn add_proxies_deduplicates_by_ip_and_port() {
    let mut pool = ProxyManager::new();
    pool.add_proxies(vec![proxy("1.1.1.1", 80, true), proxy("1.1.1.1", 80, true)]);
    assert_eq!(pool.get_free_proxies().len(), 1);
    pool.add_proxies(vec![proxy("1.1.1.1", 81, true)]);
    assert_eq!(pool.get_free_proxies().len(), 2);
}

#[test]
fn re_added_proxy_keeps_its_metrics() {
    let mut pool = ProxyManager::new();
    pool.add_proxies(vec![proxy("1.1.1.1", 80, true)]);
    // two uses, one failed
    assert!(pool.apply_test_result(&proxy("1.1.1.1", 80, true), true, 120, 1000));
    assert!(pool.apply_test_result(&proxy("1.1.1.1", 80, true), false, 0, 2000));
    let before = pool.export_pool();
    assert_eq!(before[0].metrics.total_requests, 2);
    assert_eq!(before[0].metrics.failed_requests, 1);

    // re-adding the same key must not reset the counters
    pool.add_proxies(vec![proxy("1.1.1.1", 80, true)]);
    let after = pool.export_pool();
    assert_eq!(after.len(), 1);
    assert_eq!(after[0].metrics.total_requests, 2);
    assert_eq!(after[0].metrics.failed_requests, 1);
    assert_eq!(after[0].metrics.success_rate, 50);
}

#[test]
fn apply_test_result_updates_metrics_exactly() {
    let mut pool = ProxyManager::new();
    pool.add_proxies(vec![proxy("2.2.2.2", 8080, true)]);
    let key = proxy("2.2.2.2", 8080, true);

    assert!(pool.apply_test_result(&key, true, 250, 5000));
    let e = &pool.export_pool()[0];
    assert_eq!(e.metrics.total_requests, 1);
    assert_eq!(e.metrics.failed_requests, 0);
    assert_eq!(e.metrics.success_rate, 100);
    assert_eq!(e.metrics.response_time_ms, 250);
    assert_eq!(e.metrics.last_success, Some(5000));
    assert_eq!(e.metrics.consecutive_failures, 0);
    assert!(e.proxy.is_working);

    assert!(pool.apply_test_result(&key, false, 0, 6000));
    let e = &pool.export_pool()[0];
    assert_eq!(e.metrics.total_requests, 2);
    assert_eq!(e.metrics.failed_requests, 1);
    assert_eq!(e.metrics.success_rate, 50);
    assert_eq!(e.metrics.response_time_ms, 250, "latency keeps its last good value");
    assert_eq!(e.metrics.consecutive_failures, 1);
    assert!(!e.proxy.is_working);

    // unknown key is reported, nothing changes
    assert!(!pool.apply_test_result(&proxy("9.9.9.9", 1, true), true, 1, 1));
}

#[test]
fn remove_dead_proxies_evicts_broken_and_flaky_entries() {
    let mut pool = ProxyManager::new();
    pool.add_proxies(vec![
        proxy("1.1.1.1", 80, true),
        proxy("2.2.2.2", 80, false),
        proxy("3.3.3.3", 80, true),
    ]);
    // drive 3.3.3.3 over the failure threshold (more than 3 in a row)
    for t in 0..4 {
        pool.apply_test_result(&proxy("3.3.3.3", 80, true), false, 0, t);
    }
    // a failed probe marks the proxy not working; revive the flag to test the
    // failure-streak rule on its own
    let mut revived = proxy("3.3.3.3", 80, true);
    revived.is_working = true;
    pool.add_proxies(vec![revived]);

    pool.remove_dead_proxies();
    let left = pool.get_free_proxies();
    assert_eq!(left.len(), 1);
    assert_eq!(left[0].ip, "1.1.1.1");
}

#[test]
fn active_proxy_selection_round_trips() {
    let mut pool = ProxyManager::new();
    assert!(pool.get_active_proxy().is_none());
    pool.set_active_proxy(Some(proxy("5.5.5.5", 3128, true)));
    let active = pool.get_active_proxy().expect("an active proxy was set");
    assert_eq!(active.ip, "5.5.5.5");
    assert_eq!(active.port, 3128);
    pool.set_active_proxy(None);
    assert!(pool.get_active_proxy().is_none());
}

#[test]
fn export_import_round_trip_preserves_records_and_metrics() {
    let mut pool = ProxyManager::new();
    pool.add_proxies(vec![
        proxy("1.1.1.1", 80, true),
        proxy("2.2.2.2", 81, false),
        proxy("3.3.3.3", 82, true),
    ]);
    pool.apply_test_result(&proxy("1.1.1.1", 80, true), true, 42, 100);
    pool.apply_test_result(&proxy("3.3.3.3", 82, true), false, 0, 200);

    let snapshot = pool.export_pool();

    let mut restored = ProxyManager::new();
    restored.import_pool(snapshot);
    let a = pool.export_pool();
    let b = restored.export_pool();
    assert_eq!(a.len(), b.len());
    for (x, y) in a.iter().zip(b.iter()) {
        assert_eq!(x.proxy.ip, y.proxy.ip);
        assert_eq!(x.proxy.port, y.proxy.port);
        assert_eq!(x.proxy.country, y.proxy.country);
        assert_eq!(x.proxy.country_code, y.proxy.country_code);
        assert_eq!(x.proxy.anonymity, y.proxy.anonymity);
        assert_eq!(x.proxy.speed, y.proxy.speed);
        assert_eq!(x.proxy.uptime_permille, y.proxy.uptime_permille);
        assert_eq!(x.proxy.provider, y.proxy.provider);
        assert_eq!(x.proxy.is_working, y.proxy.is_working);
        assert_eq!(x.metrics, y.metrics);
    }
}

#[test]
fn clear_proxies_empties_the_pool() {
    let mut pool = ProxyManager::new();
    pool.add_proxies(vec![proxy("1.1.1.1", 80, true)]);
    pool.clear_proxies();
    assert!(pool.get_free_proxies().is_empty());
}
