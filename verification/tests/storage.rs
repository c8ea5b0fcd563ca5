use link_interceptor::models::{Timestamp, FavoriteEntry, HistoryEntry};
use link_interceptor::storage::{
    is_favorite, record_history, record_history_at, remove_favorite_url, remove_history_url,
    toggle_favorite, toggle_favorite_at,
};

#[test]
fn history_deduplicates_and_counts() {
    let mut entries = Vec::new();
    record_history(&mut entries, "https://example.com");
    record_history(&mut entries, "https://example.com");
    assert_eq!(entries.len(), 1);
    assert_eq!(entries[0].open_count, 2);
}

#[test]
fn favorite_toggle_adds_and_removes() {
    let mut entries = Vec::new();
    assert!(toggle_favorite(&mut entries, "https://example.com"));
    assert!(is_favorite(&entries, "https://example.com"));
    assert!(!toggle_favorite(&mut entries, "https://example.com"));
    assert!(!is_favorite(&entries, "https://example.com"));
}

fn at(seconds: i64, nanos: u32) -> Timestamp {
    Timestamp { seconds, nanos }
}

#[test]
fn history_is_kept_most_recent_first() {
    let mut entries: Vec<HistoryEntry> = Vec::new();
    record_history_at(&mut entries, "a", at(10, 0));
    record_history_at(&mut entries, "b", at(20, 0));
    record_history_at(&mut entries, "c", at(20, 0));
    record_history_at(&mut entries, "a", at(30, 5));
    let urls: Vec<&str> = entries.iter().map(|e| e.url.as_str()).collect();
    assert_eq!(urls, vec!["a", "b", "c"]);
    assert_eq!(entries[0].open_count, 2);
    assert_eq!(entries[0].first_seen_at, at(10, 0));
    assert_eq!(entries[0].last_seen_at, at(30, 5));
    assert_eq!(entries[2].open_count, 1);
}

#[test]
fn history_orders_by_nanoseconds_within_a_second() {
    let mut entries: Vec<HistoryEntry> = Vec::new();
    record_history_at(&mut entries, "early", at(5, 1));
    record_history_at(&mut entries, "late", at(5, 2));
    record_history_at(&mut entries, "before epoch", at(-3, 0));
    let urls: Vec<&str> = entries.iter().map(|e| e.url.as_str()).collect();
    assert_eq!(urls, vec!["late", "early", "before epoch"]);
}

#[test]
fn favorites_are_kept_most_recent_first() {
    let mut entries: Vec<FavoriteEntry> = Vec::new();
    assert!(toggle_favorite_at(&mut entries, "x", at(1, 0)));
    assert!(toggle_favorite_at(&mut entries, "y", at(2, 0)));
    assert!(toggle_favorite_at(&mut entries, "z", at(1, 500)));
    let urls: Vec<&str> = entries.iter().map(|e| e.url.as_str()).collect();
    assert_eq!(urls, vec!["y", "z", "x"]);
    assert!(!toggle_favorite_at(&mut entries, "z", at(9, 0)));
    let urls: Vec<&str> = entries.iter().map(|e| e.url.as_str()).collect();
    assert_eq!(urls, vec!["y", "x"]);
}

#[test]
fn removing_a_url_drops_all_its_entries() {
    let mut history: Vec<HistoryEntry> = vec![
        HistoryEntry::new("a".to_owned(), at(1, 0)),
        HistoryEntry::new("b".to_owned(), at(2, 0)),
        HistoryEntry::new("a".to_owned(), at(3, 0)),
    ];
    remove_history_url(&mut history, "a");
    assert_eq!(history.len(), 1);
    assert_eq!(history[0].url, "b");
    let mut favorites = vec![
        FavoriteEntry { url: "x".to_owned(), added_at: at(1, 0) },
        FavoriteEntry { url: "y".to_owned(), added_at: at(1, 0) },
    ];
    remove_favorite_url(&mut favorites, "y");
    remove_favorite_url(&mut favorites, "missing");
    assert_eq!(favorites.len(), 1);
    assert_eq!(favorites[0].url, "x");
}

#[test]
fn toggling_twice_restores_the_favorite_urls() {
    let mut entries = vec![
        FavoriteEntry { url: "https://b.example".to_owned(), added_at: at(20, 0) },
        FavoriteEntry { url: "https://a.example".to_owned(), added_at: at(10, 0) },
    ];
    assert!(!toggle_favorite_at(&mut entries, "https://a.example", at(30, 0)));
    assert!(toggle_favorite_at(&mut entries, "https://a.example", at(40, 0)));
    let urls: Vec<&str> = entries.iter().map(|e| e.url.as_str()).collect();
    assert_eq!(urls, vec!["https://a.example", "https://b.example"]);

    assert!(toggle_favorite_at(&mut entries, "https://c.example", at(50, 0)));
    assert!(!toggle_favorite_at(&mut entries, "https://c.example", at(60, 0)));
    let urls: Vec<&str> = entries.iter().map(|e| e.url.as_str()).collect();
    assert_eq!(urls, vec!["https://a.example", "https://b.example"]);
}
