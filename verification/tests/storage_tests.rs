use browser_core::storage::{Bookmark, Cookie, HistoryEntry, StorageEngine};
use browser_core::unix_timestamp;

/// Helper function to get current timestamp for tests
fn current_timestamp() -> i64 {
    unix_timestamp() as i64
}

/// One hour in seconds
const ONE_HOUR_SECONDS: i64 = 3600;

#[test]
fn test_cookie_creation() {
    let expires_timestamp = current_timestamp() + ONE_HOUR_SECONDS; // 1 hour from now
    let cookie = Cookie {
        domain: "example.com".to_string(),
        name: "session_id".to_string(),
        value: "abc123".to_string(),
        path: "/".to_string(),
        expires: Some(expires_timestamp),
        http_only: true,
        secure: true,
        same_site: "Strict".to_string(),
    };

    assert_eq!(cookie.domain, "example.com");
    assert_eq!(cookie.name, "session_id");
    assert_eq!(cookie.value, "abc123");
    assert!(cookie.http_only);
    assert!(cookie.secure);
}

#[test]
fn test_history_entry_creation() {
    let timestamp = current_timestamp();
    let entry = HistoryEntry {
        id: 1,
        url: "https://example.com/page".to_string(),
        title: Some("Example Page".to_string()),
        visit_count: 5,
        last_visit: timestamp,
    };

    assert_eq!(entry.id, 1);
    assert_eq!(entry.url, "https://example.com/page");
    assert_eq!(entry.title, Some("Example Page".to_string()));
    assert_eq!(entry.visit_count, 5);
}

#[test]
fn test_bookmark_creation() {
    let timestamp = current_timestamp();
    let bookmark = Bookmark {
        id: 1,
        url: "https://github.com".to_string(),
        title: "GitHub".to_string(),
        folder: Some("Development".to_string()),
        created_at: timestamp,
    };

    assert_eq!(bookmark.id, 1);
    assert_eq!(bookmark.url, "https://github.com");
    assert_eq!(bookmark.title, "GitHub");
    assert_eq!(bookmark.folder, Some("Development".to_string()));
}

#[test]
fn test_bookmark_without_folder() {
    let timestamp = current_timestamp();
    let bookmark = Bookmark {
        id: 2,
        url: "https://rust-lang.org".to_string(),
        title: "Rust Programming Language".to_string(),
        folder: None,
        created_at: timestamp,
    };

    assert_eq!(bookmark.id, 2);
    assert!(bookmark.folder.is_none());
}

#[test]
fn test_cookie_same_site_values() {
    let cookies = vec![
        Cookie {
            domain: "a.com".to_string(),
            name: "strict".to_string(),
            value: "1".to_string(),
            path: "/".to_string(),
            expires: None,
            http_only: false,
            secure: false,
            same_site: "Strict".to_string(),
        },
        Cookie {
            domain: "b.com".to_string(),
            name: "lax".to_string(),
            value: "2".to_string(),
            path: "/".to_string(),
            expires: None,
            http_only: false,
            secure: false,
            same_site: "Lax".to_string(),
        },
        Cookie {
            domain: "c.com".to_string(),
            name: "none".to_string(),
            value: "3".to_string(),
            path: "/".to_string(),
            expires: None,
            http_only: false,
            secure: true,
            same_site: "None".to_string(),
        },
    ];

    assert_eq!(cookies[0].same_site, "Strict");
    assert_eq!(cookies[1].same_site, "Lax");
    assert_eq!(cookies[2].same_site, "None");
    // SameSite=None requires Secure flag
    assert!(cookies[2].secure);
}

#[test]
fn test_history_entry_visit_count() {
    let initial_timestamp = current_timestamp();
    let mut entry = HistoryEntry {
        id: 1,
        url: "https://example.com".to_string(),
        title: Some("Example".to_string()),
        visit_count: 0,
        last_visit: initial_timestamp,
    };

    // Simulate visiting the page multiple times
    for _ in 0..5 {
        entry.visit_count += 1;
        entry.last_visit += ONE_HOUR_SECONDS; // Advance 1 hour
    }

    assert_eq!(entry.visit_count, 5);
    assert_eq!(entry.last_visit, initial_timestamp + 5 * ONE_HOUR_SECONDS);
}

fn cookie(domain: &str, name: &str, value: &str) -> Cookie {
    Cookie {
        domain: domain.to_string(),
        name: name.to_string(),
        value: value.to_string(),
        path: "/".to_string(),
        expires: None,
        http_only: false,
        secure: false,
        same_site: "Lax".to_string(),
    }
}

#[test]
fn test_export_import_all() {
    let mut storage = StorageEngine::new();

    // Add some data
    storage.set_cookie(Cookie {
        domain: "example.com".to_string(),
        name: "session".to_string(),
        value: "abc123".to_string(),
        path: "/".to_string(),
        expires: Some(9999999999),
        http_only: true,
        secure: true,
        same_site: "Lax".to_string(),
    });

    storage.add_history("https://example.com", Some("Example"), current_timestamp());
    storage.add_bookmark("https://example.com", "Example Site", None, current_timestamp());
    storage.set_local_storage("https://example.com", "key1", "value1");

    // Export
    let export = storage.export_all();
    assert_eq!(export.cookies.len(), 1);
    assert_eq!(export.history.len(), 1);
    assert_eq!(export.bookmarks.len(), 1);
    assert_eq!(export.local_storage.len(), 1);

    // Clear and import
    storage.clear_all();
    let stats = storage.import_all(export);

    assert_eq!(stats.cookies_count, 1);
    assert_eq!(stats.history_count, 1);
    assert_eq!(stats.bookmarks_count, 1);
    assert_eq!(stats.local_storage_items, 1);
}

#[test]
fn test_selective_import() {
    let mut storage = StorageEngine::new();

    storage.set_cookie(cookie("test.com", "test", "value"));
    storage.add_bookmark("https://test.com", "Test", None, current_timestamp());

    let export = storage.export_all();
    storage.clear_all();

    // Import only bookmarks
    let options = browser_core::storage::ImportOptions {
        merge: false,
        import_cookies: false,
        import_history: false,
        import_bookmarks: true,
        import_local_storage: false,
    };

    storage.import_with_options(export, &options);

    assert_eq!(storage.get_all_cookies().len(), 0);
    assert_eq!(storage.get_bookmarks().len(), 1);
}

#[test]
fn test_merge_import() {
    let mut storage = StorageEngine::new();

    storage.add_bookmark("https://first.com", "First", None, current_timestamp());
    let export = storage.export_all();

    storage.add_bookmark("https://second.com", "Second", None, current_timestamp());

    // Merge import
    let options = browser_core::storage::ImportOptions::all();
    storage.import_with_options(export, &options);

    // Should have both bookmarks
    let bookmarks = storage.get_bookmarks();
    assert_eq!(bookmarks.len(), 2);
}

#[test]
fn cookie_upsert_replaces_by_key() {
    let mut storage = StorageEngine::new();
    storage.set_cookie(cookie("a.com", "sid", "one"));
    storage.set_cookie(cookie("a.com", "sid", "two"));
    let all = storage.get_all_cookies();
    assert_eq!(all.len(), 1);
    assert_eq!(all[0].value, "two");
    storage.delete_cookie("a.com", "sid", "/");
    assert!(storage.get_all_cookies().is_empty());
}

#[test]
fn history_merges_repeat_visits() {
    let mut storage = StorageEngine::new();
    storage.add_history("https://example.com", Some("Example"), 1000);
    storage.add_history("https://example.com", None, 2000);
    storage.add_history("https://other.com", Some("Other"), 1500);
    let recent = storage.get_history(10);
    assert_eq!(recent.len(), 2);
    assert_eq!(recent[0].url, "https://example.com");
    assert_eq!(recent[0].visit_count, 2);
    assert_eq!(recent[0].last_visit, 2000);
    assert_eq!(recent[1].url, "https://other.com");
}

#[test]
fn search_history_is_case_insensitive() {
    let mut storage = StorageEngine::new();
    storage.add_history("https://Example.com/Page", Some("My Example"), 1000);
    storage.add_history("https://other.net", Some("Elsewhere"), 2000);
    let hits = storage.search_history("example");
    assert_eq!(hits.len(), 1);
    assert_eq!(hits[0].url, "https://Example.com/Page");
    let by_title = storage.search_history("ELSEWHERE");
    assert_eq!(by_title.len(), 1);
    assert_eq!(by_title[0].url, "https://other.net");
    assert!(storage.search_history("missing").is_empty());
}

#[test]
fn bookmarks_sorted_newest_first() {
    let mut storage = StorageEngine::new();
    let first = storage.add_bookmark("https://a.com", "A", None, 100);
    let second = storage.add_bookmark("https://b.com", "B", Some("Folder"), 300);
    let third = storage.add_bookmark("https://c.com", "C", None, 200);
    assert!(first != second && second != third && first != third);
    let list = storage.get_bookmarks();
    assert_eq!(list.len(), 3);
    assert_eq!(list[0].url, "https://b.com");
    assert_eq!(list[1].url, "https://c.com");
    assert_eq!(list[2].url, "https://a.com");
    storage.delete_bookmark(second);
    assert_eq!(storage.get_bookmarks().len(), 2);
}

#[test]
fn local_storage_round_trip() {
    let mut storage = StorageEngine::new();
    storage.set_local_storage("https://a.com", "k1", "v1");
    storage.set_local_storage("https://a.com", "k1", "v2");
    storage.set_local_storage("https://a.com", "k2", "w");
    storage.set_local_storage("https://b.com", "k1", "x");
    assert_eq!(storage.get_local_storage("https://a.com", "k1"), Some("v2".to_string()));
    assert_eq!(storage.get_all_local_storage("https://a.com").len(), 2);
    let stats = storage.get_stats();
    assert_eq!(stats.local_storage_origins, 2);
    assert_eq!(stats.local_storage_items, 3);
    storage.clear_local_storage("https://a.com");
    assert_eq!(storage.get_local_storage("https://a.com", "k1"), None);
    assert_eq!(storage.get_local_storage("https://b.com", "k1"), Some("x".to_string()));
}

#[test]
fn get_cookies_matches_domains_both_ways() {
    let mut storage = StorageEngine::new();
    storage.set_cookie(cookie("example.com", "a", "1"));
    storage.set_cookie(cookie("sub.example.com", "b", "2"));
    storage.set_cookie(cookie("other.net", "c", "3"));
    let hits = storage.get_cookies("example.com");
    assert_eq!(hits.len(), 2);
}

#[test]
fn bookmark_import_skips_duplicate_urls_on_merge() {
    let mut storage = StorageEngine::new();
    storage.add_bookmark("https://a.com", "A", None, 100);

    let batch = vec![
        Bookmark { id: 77, url: "https://a.com".to_string(), title: "A again".to_string(), folder: None, created_at: 200 },
        Bookmark { id: 78, url: "https://b.com".to_string(), title: "B".to_string(), folder: None, created_at: 300 },
        Bookmark { id: 79, url: "https://b.com".to_string(), title: "B again".to_string(), folder: None, created_at: 400 },
    ];
    let added = storage.import_bookmarks_list(batch, true);
    assert_eq!(added, 1, "only the first unseen URL is inserted");
    assert_eq!(storage.get_bookmarks().len(), 2);

    // replacing takes every item over, input ids ignored
    let batch = vec![
        Bookmark { id: 77, url: "https://c.com".to_string(), title: "C".to_string(), folder: None, created_at: 500 },
        Bookmark { id: 77, url: "https://c.com".to_string(), title: "C twice".to_string(), folder: None, created_at: 600 },
    ];
    let added = storage.import_bookmarks_list(batch, false);
    assert_eq!(added, 2);
    let all = storage.get_bookmarks();
    assert_eq!(all.len(), 2);
    assert_ne!(all[0].id, all[1].id, "fresh ids stay unique");
}
