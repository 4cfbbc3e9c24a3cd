use browser_core::demo_generator;
use browser_core::ipfmt::format_ipv4;
use browser_core::ipfmt::parse_ipv4;
use browser_core::CoreError;
use browser_core::TabIPManager;
use browser_core::TabStatus;

fn demo_range_holds(country: &str, addr: u32) -> bool {
    // the built-in registry, as numeric intervals
    let ranges: &[(&str, u32, u32)] = &[
        ("US", 0x03000000, 0x037FFFFF),
        ("US", 0x2CC00000, 0x2CFFFFFF),
        ("GB", 0x19000000, 0x193FFFFF),
        ("GB", 0x338C0000, 0x338FFFFF),
        ("DE", 0x35000000, 0x353FFFFF),
        ("DE", 0xD9400000, 0xD97FFFFF),
        ("FR", 0x5A000000, 0x5A3FFFFF),
        ("FR", 0xC1300000, 0xC133FFFF),
        ("JP", 0x7E000000, 0x7E3FFFFF),
        ("JP", 0x85000000, 0x853FFFFF),
        ("CA", 0x63E00000, 0x63FFFFFF),
        ("CA", 0x8E580000, 0x8E5FFFFF),
        ("AU", 0x01780000, 0x017FFFFF),
        ("AU", 0x65A00000, 0x65BFFFFF),
    ];
    ranges
        .iter()
        .any(|(c, first, last)| *c == country && *first < addr && addr < *last)
}

#[test]
fn generated_address_lies_inside_a_registered_range() {
    let mut gen = demo_generator();
    for country in ["US", "GB", "DE", "FR", "JP", "CA", "AU"] {
        for _ in 0..50 {
            let v = gen.generate(country).expect("registered country must generate");
            assert_eq!(v.country_code, country);
            assert!(
                demo_range_holds(country, v.addr),
                "address {} outside every {} range",
                v.ip,
                country
            );
            assert_eq!(v.ip, format_ipv4(v.addr));
        }
    }
}

#[test]
fn unregistered_country_is_rejected() {
    let mut gen = demo_generator();
    let r = gen.generate("ZZ");
    assert_eq!(r.err(), Some(CoreError::InvalidCountry));
}

#[test]
fn format_ipv4_exact_values() {
    assert_eq!(format_ipv4(0), "0.0.0.0");
    assert_eq!(format_ipv4(0xFFFFFFFF), "255.255.255.255");
    assert_eq!(format_ipv4(0xC0A80101), "192.168.1.1");
    assert_eq!(format_ipv4(0x01020304), "1.2.3.4");
    assert_eq!(format_ipv4(0x0A000001), "10.0.0.1");
}

#[test]
fn rotate_ip_changes_address_and_keeps_country() {
    let manager_gen = demo_generator();
    let mut tabs = TabIPManager::new(manager_gen);
    let tab = tabs.create_tab("US").expect("create_tab must succeed for US");
    let rotated = tabs.rotate_ip(tab.tab_id, None).expect("rotate_ip must succeed");
    assert_ne!(rotated.ip, tab.ip.ip);
    assert_eq!(rotated.country_code, "US");
    let reread = tabs.get_tab(tab.tab_id).expect("tab must still exist");
    assert_eq!(reread.ip.ip, rotated.ip);
}

#[test]
fn rotate_ip_with_country_override() {
    let mut tabs = TabIPManager::new(demo_generator());
    let tab = tabs.create_tab("US").unwrap();
    let rotated = tabs.rotate_ip(tab.tab_id, Some("GB")).unwrap();
    assert_eq!(rotated.country_code, "GB");
    assert!(demo_range_holds("GB", rotated.addr));
}

#[test]
fn distinct_tabs_get_distinct_ids_and_country_scoped_ips() {
    let mut tabs = TabIPManager::new(demo_generator());
    let t1 = tabs.create_tab("US").unwrap();
    let t2 = tabs.create_tab("GB").unwrap();
    let t3 = tabs.create_tab("US").unwrap();
    assert_ne!(t1.tab_id, t2.tab_id);
    assert_ne!(t1.tab_id, t3.tab_id);
    assert_ne!(t2.tab_id, t3.tab_id);
    assert!(demo_range_holds("GB", t2.ip.addr));
    assert_ne!(t1.ip.ip, t3.ip.ip, "two US tabs should get different addresses");
    assert_eq!(tabs.get_all_tabs().len(), 3);
}

#[test]
fn closing_unknown_tab_succeeds_and_lookup_stays_empty() {
    let mut tabs = TabIPManager::new(demo_generator());
    let unknown: u64 = 424242;
    assert!(tabs.get_tab(unknown).is_none());
    tabs.close_tab(unknown);
    assert!(tabs.get_tab(unknown).is_none());
}

#[test]
fn close_tab_is_idempotent_and_removes_the_tab() {
    let mut tabs = TabIPManager::new(demo_generator());
    let t = tabs.create_tab("DE").unwrap();
    assert!(tabs.get_tab(t.tab_id).is_some());
    tabs.close_tab(t.tab_id);
    assert!(tabs.get_tab(t.tab_id).is_none());
    tabs.close_tab(t.tab_id);
    assert!(tabs.get_tab(t.tab_id).is_none());
    assert_eq!(tabs.get_all_tabs().len(), 0);
}

#[test]
fn rotate_unknown_tab_reports_tab_not_found() {
    let mut tabs = TabIPManager::new(demo_generator());
    let r = tabs.rotate_ip(99, None);
    assert_eq!(r.err(), Some(CoreError::TabNotFound));
}

#[test]
fn tab_status_labels() {
    assert_eq!(TabStatus::Creating.label(), "Creating");
    assert_eq!(TabStatus::Active.label(), "Active");
    assert_eq!(TabStatus::Closed.label(), "Closed");
}

#[test]
fn list_countries_is_sorted_by_display_name() {
    let gen = demo_generator();
    let countries = gen.list_countries();
    assert_eq!(countries.len(), 7);
    for w in countries.windows(2) {
        assert!(w[0].name <= w[1].name, "{} should not precede {}", w[0].name, w[1].name);
    }
    assert!(countries.iter().any(|c| c.code == "US"));
    assert!(countries.iter().any(|c| c.code == "JP"));
}

#[test]
fn create_list_rotate_validate_tab() {
    let mut tabs = TabIPManager::new(demo_generator());
    let created = tabs.create_tab("US").expect("create");
    assert_eq!(created.ip.country_code, "US");
    let listed = tabs.get_all_tabs();
    assert_eq!(listed.len(), 1);
    let rotated = tabs.rotate_ip(created.tab_id, None).expect("rotate");
    assert_eq!(rotated.country_code, "US");
    assert_ne!(rotated.ip, created.ip.ip);
    // validation: the rotated address still lies in a registered US range
    assert!(demo_range_holds("US", rotated.addr));
}

#[test]
fn unix_timestamp_is_after_epoch() {
    assert!(browser_core::unix_timestamp() > 0);
    assert!(browser_core::unix_timestamp_ms() > 0);
}

#[test]
fn parse_ipv4_round_trips_canonical_text() {
    assert_eq!(parse_ipv4("0.0.0.0"), Some(0));
    assert_eq!(parse_ipv4("255.255.255.255"), Some(0xFFFFFFFF));
    assert_eq!(parse_ipv4("192.168.1.1"), Some(0xC0A80101));
    assert_eq!(parse_ipv4("1.2.3.4"), Some(0x01020304));
    // non-canonical or malformed text is rejected
    assert_eq!(parse_ipv4("01.2.3.4"), None);
    assert_eq!(parse_ipv4("1.2.3"), None);
    assert_eq!(parse_ipv4("1.2.3.4.5"), None);
    assert_eq!(parse_ipv4("256.0.0.1"), None);
    assert_eq!(parse_ipv4("a.b.c.d"), None);
    assert_eq!(parse_ipv4(""), None);
}

#[test]
fn from_rows_rebuilds_the_cache_from_durable_rows() {
    let mut tabs = TabIPManager::new(demo_generator());
    let t1 = tabs.create_tab("US").unwrap();
    let t2 = tabs.create_tab("GB").unwrap();

    // simulate a restart: scan the durable rows back in
    let rows: Vec<browser_core::TabRow> = tabs
        .get_all_tabs()
        .into_iter()
        .map(|t| browser_core::TabRow {
            tab_id: t.tab_id,
            country_code: t.ip.country_code.clone(),
            ip: t.ip.ip.clone(),
            created_at: t.created_at,
            last_active: t.last_active,
        })
        .collect();
    let restarted = TabIPManager::from_rows(demo_generator(), rows);

    let r1 = restarted.get_tab(t1.tab_id).expect("first tab survives the restart");
    assert_eq!(r1.ip.ip, t1.ip.ip);
    assert_eq!(r1.ip.country_code, "US");
    assert_eq!(r1.created_at, t1.created_at);
    let r2 = restarted.get_tab(t2.tab_id).expect("second tab survives the restart");
    assert_eq!(r2.ip.ip, t2.ip.ip);
    assert_eq!(restarted.get_all_tabs().len(), 2);

    // corrupted rows are dropped, not fatal
    let damaged = vec![browser_core::TabRow {
        tab_id: 9,
        country_code: "US".to_string(),
        ip: "not-an-address".to_string(),
        created_at: 0,
        last_active: 0,
    }];
    let partial = TabIPManager::from_rows(demo_generator(), damaged);
    assert!(partial.get_all_tabs().is_empty());
}
