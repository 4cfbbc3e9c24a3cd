use browser_core::proxy::{FreeProxy, ProxyManager, ProxyMetrics, ProxyType};
use browser_core::rotation::{ProxyRotationManager, RotationStrategy};
use browser_core::unix_timestamp;
use browser_core::CoreError;

fn create_test_proxy(ip: &str, country: &str) -> FreeProxy {
    // Safely extract first 2 characters for country code
    let country_code = country.get(..2).unwrap_or("XX").to_uppercase();

    FreeProxy {
        ip: ip.to_string(),
        port: 8080,
        proxy_type: ProxyType::Http,
        country: country.to_string(),
        country_code,
        anonymity: "elite".to_string(),
        speed: 100,
        uptime_permille: 999,
        last_checked: unix_timestamp(),
        provider: "test_provider".to_string(),
        is_working: true,
    }
}

fn pool_of(ips: &[&str]) -> ProxyManager {
    let mut pool = ProxyManager::new();
    let records: Vec<FreeProxy> = ips.iter().map(|ip| create_test_proxy(ip, "United States")).collect();
    pool.add_proxies(records);
    pool
}

#[test]
fn test_rotation_strategies_exist() {
    // Test that all rotation strategies can be created
    let strategies = vec![
        RotationStrategy::PerRequest(10),
        RotationStrategy::PerDuration(5 * 60 * 1000),
        RotationStrategy::PerSession,
        RotationStrategy::Random { permille: 500 },
        RotationStrategy::Sticky { duration_ms: 60 * 60 * 1000 },
        RotationStrategy::Geographic { country_codes: vec!["US".to_string(), "GB".to_string()] },
        RotationStrategy::PerformanceBased,
        RotationStrategy::RoundRobin,
        RotationStrategy::DomainBased,
        RotationStrategy::Manual,
    ];

    assert_eq!(strategies.len(), 10);
}

#[test]
fn test_proxy_metrics_initialization() {
    let metrics = ProxyMetrics {
        response_time_ms: 100,
        success_rate: 95,
        last_success: Some(unix_timestamp()),
        consecutive_failures: 0,
        total_requests: 100,
        failed_requests: 5,
    };

    assert_eq!(metrics.response_time_ms, 100);
    assert_eq!(metrics.success_rate, 95);
    assert_eq!(metrics.consecutive_failures, 0);
    assert_eq!(metrics.total_requests, 100);
    assert_eq!(metrics.failed_requests, 5);
}

#[test]
fn test_proxy_metrics_success_rate_calculation() {
    let metrics = ProxyMetrics {
        response_time_ms: 150,
        success_rate: 0, // Will be calculated
        last_success: None,
        consecutive_failures: 2,
        total_requests: 50,
        failed_requests: 10,
    };

    // Success rate = (total - failed) / total * 100
    let calculated_rate = ((metrics.total_requests - metrics.failed_requests) as f64
        / metrics.total_requests as f64) * 100.0;

    assert_eq!(calculated_rate, 80.0);
}

#[test]
fn test_free_proxy_creation() {
    let proxy = create_test_proxy("192.168.1.1", "United States");

    assert_eq!(proxy.ip, "192.168.1.1");
    assert_eq!(proxy.port, 8080);
    assert_eq!(proxy.country, "United States");
    assert!(proxy.is_working);
}

#[test]
fn test_proxy_type_variants() {
    // Test all proxy type variants
    let http = ProxyType::Http;
    let https = ProxyType::Https;
    let socks4 = ProxyType::Socks4;
    let socks5 = ProxyType::Socks5;
    let direct = ProxyType::Direct;

    // Ensure they are different
    assert!(matches!(http, ProxyType::Http));
    assert!(matches!(https, ProxyType::Https));
    assert!(matches!(socks4, ProxyType::Socks4));
    assert!(matches!(socks5, ProxyType::Socks5));
    assert!(matches!(direct, ProxyType::Direct));
}

#[test]
fn test_rotation_strategy_per_request() {
    let strategy = RotationStrategy::PerRequest(5);

    match strategy {
        RotationStrategy::PerRequest(count) => {
            assert_eq!(count, 5);
        }
        _ => panic!("Expected PerRequest strategy"),
    }
}

#[test]
fn test_rotation_strategy_per_duration() {
    let duration_ms: i64 = 10 * 60 * 1000;
    let strategy = RotationStrategy::PerDuration(duration_ms);

    match strategy {
        RotationStrategy::PerDuration(d) => {
            assert_eq!(d / 60000, 10);
        }
        _ => panic!("Expected PerDuration strategy"),
    }
}

#[test]
fn test_rotation_strategy_geographic() {
    let countries = vec!["US".to_string(), "GB".to_string(), "DE".to_string()];
    let strategy = RotationStrategy::Geographic { country_codes: countries.clone() };

    match strategy {
        RotationStrategy::Geographic { country_codes } => {
            assert_eq!(country_codes.len(), 3);
            assert!(country_codes.contains(&"US".to_string()));
            assert!(country_codes.contains(&"GB".to_string()));
            assert!(country_codes.contains(&"DE".to_string()));
        }
        _ => panic!("Expected Geographic strategy"),
    }
}

#[test]
fn test_rotation_strategy_random_probability() {
    let strategy = RotationStrategy::Random { permille: 300 };

    match strategy {
        RotationStrategy::Random { permille } => {
            assert_eq!(permille, 300);
            assert!(permille <= 1000);
        }
        _ => panic!("Expected Random strategy"),
    }
}

#[test]
fn per_request_rotates_exactly_on_the_nth_tick() {
    let pool = pool_of(&["10.0.0.1", "10.0.0.2", "10.0.0.3"]);
    let mut rot = ProxyRotationManager::new();
    let tab: u64 = 1;
    rot.update_rotation_strategy(tab, RotationStrategy::PerRequest(3), 0);

    let o1 = rot.tick(tab, &pool, 1, None).unwrap();
    assert!(!o1.rotated, "first tick must not rotate");
    let o2 = rot.tick(tab, &pool, 2, None).unwrap();
    assert!(!o2.rotated, "second tick must not rotate");
    let o3 = rot.tick(tab, &pool, 3, None).unwrap();
    assert!(o3.rotated, "exactly the third tick must rotate");
    assert!(o3.current.is_some());

    // counters reset: the next rotation takes three more ticks
    let o4 = rot.tick(tab, &pool, 4, None).unwrap();
    assert!(!o4.rotated);
    let o5 = rot.tick(tab, &pool, 5, None).unwrap();
    assert!(!o5.rotated);
    let o6 = rot.tick(tab, &pool, 6, None).unwrap();
    assert!(o6.rotated);
}

#[test]
fn round_robin_visits_the_pool_in_order() {
    let pool = pool_of(&["10.0.0.1", "10.0.0.2", "10.0.0.3"]);
    let mut rot = ProxyRotationManager::new();
    let tab: u64 = 7;
    rot.update_rotation_strategy(tab, RotationStrategy::RoundRobin, 0);

    let mut seen = Vec::new();
    for t in 0..6 {
        let o = rot.tick(tab, &pool, t, None).unwrap();
        assert!(o.rotated);
        seen.push(o.current.unwrap().ip);
    }
    assert_eq!(
        seen,
        vec!["10.0.0.1", "10.0.0.2", "10.0.0.3", "10.0.0.1", "10.0.0.2", "10.0.0.3"]
    );
}

#[test]
fn domain_based_mapping_is_stable() {
    let pool = pool_of(&["10.0.0.1", "10.0.0.2", "10.0.0.3"]);
    let mut rot = ProxyRotationManager::new();
    let tab: u64 = 9;
    rot.update_rotation_strategy(tab, RotationStrategy::DomainBased, 0);

    let first = rot.tick(tab, &pool, 1, Some("example.com")).unwrap();
    let again = rot.tick(tab, &pool, 2, Some("example.com")).unwrap();
    let third = rot.tick(tab, &pool, 3, Some("example.com")).unwrap();
    let a = first.current.unwrap().ip;
    let b = again.current.unwrap().ip;
    let c = third.current.unwrap().ip;
    assert_eq!(a, b, "same domain must resolve to the same proxy");
    assert_eq!(b, c);
    assert!(!again.rotated, "a cached mapping is not a rotation");

    // another domain resolves to some working proxy too
    let other = rot.tick(tab, &pool, 4, Some("other.net")).unwrap();
    let d = other.current.unwrap().ip;
    assert!(["10.0.0.1", "10.0.0.2", "10.0.0.3"].contains(&d.as_str()));
}

#[test]
fn one_tick_commits_exactly_one_rotation() {
    let pool = pool_of(&["10.0.0.1", "10.0.0.2"]);
    let mut rot = ProxyRotationManager::new();
    let tab: u64 = 3;
    rot.update_rotation_strategy(tab, RotationStrategy::PerRequest(1), 0);

    let o = rot.tick(tab, &pool, 1, None).unwrap();
    assert!(o.rotated);
    let stats = rot.get_session_stats(tab).expect("binding exists");
    assert_eq!(stats.rotation_count, 1, "one tick commits one rotation, not more");
    assert_eq!(stats.requests_since_rotation, 0);
}

#[test]
fn empty_pool_fails_without_blocking_and_keeps_the_binding() {
    let pool = ProxyManager::new();
    let mut rot = ProxyRotationManager::new();
    let tab: u64 = 4;
    rot.update_rotation_strategy(tab, RotationStrategy::RoundRobin, 0);

    let r = rot.tick(tab, &pool, 1, None);
    assert_eq!(r.err(), Some(CoreError::NoAvailableProxy));
    let stats = rot.get_session_stats(tab).unwrap();
    assert_eq!(stats.rotation_count, 0);
    assert!(stats.current_proxy.is_none());
}

#[test]
fn geographic_strategy_picks_only_listed_countries() {
    let mut pool = ProxyManager::new();
    let mut us = create_test_proxy("10.0.0.1", "United States");
    us.country_code = "US".to_string();
    let mut de = create_test_proxy("10.0.0.2", "Germany");
    de.country_code = "DE".to_string();
    pool.add_proxies(vec![us, de]);

    let mut rot = ProxyRotationManager::new();
    let tab: u64 = 5;
    rot.update_rotation_strategy(
        tab,
        RotationStrategy::Geographic { country_codes: vec!["DE".to_string()] },
        0,
    );
    let o = rot.tick(tab, &pool, 1, None).unwrap();
    assert!(o.rotated);
    assert_eq!(o.current.unwrap().country_code, "DE");
}

#[test]
fn manual_and_per_session_never_rotate_automatically() {
    let pool = pool_of(&["10.0.0.1", "10.0.0.2"]);
    let mut rot = ProxyRotationManager::new();
    rot.update_rotation_strategy(1, RotationStrategy::Manual, 0);
    rot.update_rotation_strategy(2, RotationStrategy::PerSession, 0);
    for t in 0..10 {
        assert!(!rot.tick(1, &pool, t, None).unwrap().rotated);
        assert!(!rot.tick(2, &pool, t, None).unwrap().rotated);
    }
    // an explicit manual call still rotates
    let p = rot.rotate_now(1, &pool, 100).unwrap();
    assert!(["10.0.0.1", "10.0.0.2"].contains(&p.ip.as_str()));
}

#[test]
fn per_duration_rotates_after_the_deadline() {
    let pool = pool_of(&["10.0.0.1", "10.0.0.2"]);
    let mut rot = ProxyRotationManager::new();
    let tab: u64 = 6;
    rot.update_rotation_strategy(tab, RotationStrategy::PerDuration(1000), 0);
    assert!(!rot.tick(tab, &pool, 500, None).unwrap().rotated);
    assert!(rot.tick(tab, &pool, 1500, None).unwrap().rotated);
}

#[test]
fn update_strategy_resets_counters() {
    let pool = pool_of(&["10.0.0.1", "10.0.0.2"]);
    let mut rot = ProxyRotationManager::new();
    let tab: u64 = 8;
    rot.update_rotation_strategy(tab, RotationStrategy::PerRequest(5), 0);
    rot.tick(tab, &pool, 1, None).unwrap();
    rot.tick(tab, &pool, 2, None).unwrap();
    assert_eq!(rot.get_session_stats(tab).unwrap().requests_since_rotation, 2);
    rot.update_rotation_strategy(tab, RotationStrategy::PerRequest(2), 10);
    assert_eq!(rot.get_session_stats(tab).unwrap().requests_since_rotation, 0);
}

#[test]
fn removed_binding_is_gone_and_removal_is_idempotent() {
    let pool = pool_of(&["10.0.0.1"]);
    let mut rot = ProxyRotationManager::new();
    rot.update_rotation_strategy(11, RotationStrategy::RoundRobin, 0);
    rot.tick(11, &pool, 1, None).unwrap();
    assert!(rot.get_session_stats(11).is_some());
    rot.remove_binding(11);
    assert!(rot.get_session_stats(11).is_none());
    rot.remove_binding(11);
    assert!(rot.get_session_stats(11).is_none());
}

#[test]
fn sticky_keeps_a_healthy_proxy_and_replaces_a_dead_one() {
    let mut pool = pool_of(&["10.0.0.1", "10.0.0.2"]);
    let mut rot = ProxyRotationManager::new();
    let tab: u64 = 12;
    rot.update_rotation_strategy(tab, RotationStrategy::Sticky { duration_ms: 1000 }, 0);

    // before the deadline nothing happens
    assert!(!rot.tick(tab, &pool, 500, None).unwrap().rotated);
    // past the deadline with no proxy bound yet: a rotation binds one
    let bound = rot.tick(tab, &pool, 1500, None).unwrap();
    assert!(bound.rotated);
    let kept_ip = bound.current.unwrap().ip;

    // past the next deadline the healthy proxy is kept, not swapped
    let kept = rot.tick(tab, &pool, 4000, None).unwrap();
    assert!(!kept.rotated);
    assert_eq!(kept.current.unwrap().ip, kept_ip);

    // mark the bound proxy dead: the next deadline swaps it out
    let mut dead = create_test_proxy(&kept_ip, "United States");
    dead.is_working = false;
    pool.add_proxies(vec![dead]);
    let swapped = rot.tick(tab, &pool, 8000, None).unwrap();
    assert!(swapped.rotated);
    assert_ne!(swapped.current.unwrap().ip, kept_ip);
}

#[test]
fn performance_based_picks_the_best_scoring_proxy() {
    let mut pool = pool_of(&["10.0.0.1", "10.0.0.2"]);
    // 10.0.0.1: slow and flaky; 10.0.0.2: fast and clean
    pool.apply_test_result(&create_test_proxy("10.0.0.1", "United States"), true, 900, 1);
    pool.apply_test_result(&create_test_proxy("10.0.0.1", "United States"), false, 0, 2);
    let mut revived = create_test_proxy("10.0.0.1", "United States");
    revived.is_working = true;
    pool.add_proxies(vec![revived]);
    pool.apply_test_result(&create_test_proxy("10.0.0.2", "United States"), true, 20, 3);

    let mut rot = ProxyRotationManager::new();
    let tab: u64 = 13;
    rot.update_rotation_strategy(tab, RotationStrategy::PerformanceBased, 0);
    let o = rot.tick(tab, &pool, 1, None).unwrap();
    assert!(o.rotated);
    assert_eq!(o.current.unwrap().ip, "10.0.0.2");

    // already on the best proxy: no further rotation
    let again = rot.tick(tab, &pool, 2, None).unwrap();
    assert!(!again.rotated);
}

#[test]
fn random_strategy_edges() {
    let pool = pool_of(&["10.0.0.1", "10.0.0.2"]);
    let mut rot = ProxyRotationManager::new();
    rot.update_rotation_strategy(20, RotationStrategy::Random { permille: 0 }, 0);
    rot.update_rotation_strategy(21, RotationStrategy::Random { permille: 1000 }, 0);
    for t in 0..10 {
        assert!(!rot.tick(20, &pool, t, None).unwrap().rotated, "probability zero never rotates");
        assert!(rot.tick(21, &pool, t, None).unwrap().rotated, "probability one always rotates");
    }
}

#[test]
fn error_labels_cover_the_taxonomy() {
    assert_eq!(CoreError::InvalidCountry.label(), "invalid country");
    assert_eq!(CoreError::NoAvailableProxy.label(), "no available proxy");
    assert_eq!(CoreError::TabNotFound.label(), "tab not found");
    assert_eq!(CoreError::PersistenceError.label(), "persistence error");
    assert_eq!(CoreError::ProviderFetchError.label(), "provider fetch error");
    assert_eq!(CoreError::ProxyTestTimeout.label(), "proxy test timeout");
    assert_eq!(CoreError::ProxyTestFailure.label(), "proxy test failure");
}
