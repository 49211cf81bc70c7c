//! The session cache: lookups, idle eviction, and streams without a
//! chat log.

use streamwatch::cache::{resolve_token, SessionCache};
use streamwatch::cursor::LogCursor;

const BASE: i64 = 1609459200000; // 2021-01-01T00:00:00Z

fn ts(sec: i64) -> i64 {
    BASE + sec * 1000
}

fn log_lines(secs: &[i64]) -> Vec<String> {
    secs.iter()
        .map(|&s| format!("2021-01-01T00:00:{:02}Z {{\"n\":{}}}", s, s))
        .collect()
}

#[test]
fn resolve_token_echoes_a_carried_token() {
    assert_eq!(resolve_token(Some(42)), 42);
}

#[test]
fn resolve_token_allocates_fresh_tokens() {
    let a = resolve_token(None);
    let b = resolve_token(None);
    assert_ne!(a, b);
}

#[test]
fn query_on_unknown_token_is_a_miss() {
    let mut cache = SessionCache::new();
    assert!(!cache.contains(7));
    assert!(cache.query(7, ts(0), ts(10), ts(20)).is_none());
}

#[test]
fn session_reuses_its_cursor_across_queries() {
    let mut cache = SessionCache::new();
    let token = resolve_token(None);
    let cursor = LogCursor::new(log_lines(&[1, 2, 3, 4]), ts(0));
    cache.insert_session(token, 9, Some(cursor), ts(10));
    let first = cache.query(token, ts(1), ts(2), ts(11)).unwrap().unwrap();
    let second = cache.query(token, ts(3), ts(4), ts(12)).unwrap().unwrap();
    let firsts: Vec<i64> = first.iter().map(|i| i.ts).collect();
    let seconds: Vec<i64> = second.iter().map(|i| i.ts).collect();
    assert_eq!(firsts, vec![ts(1), ts(2)]);
    assert_eq!(seconds, vec![ts(3), ts(4)]);
}

#[test]
fn stream_without_chat_always_answers_empty() {
    let mut cache = SessionCache::new();
    cache.insert_session(5, 9, None, ts(0));
    let items = cache.query(5, ts(0), ts(100), ts(1)).unwrap().unwrap();
    assert!(items.is_empty());
    // still present, still empty on the next window
    assert!(cache.contains(5));
    let again = cache.query(5, ts(200), ts(300), ts(2)).unwrap().unwrap();
    assert!(again.is_empty());
}

#[test]
fn prune_evicts_idle_entries_and_keeps_active_ones() {
    let mut cache = SessionCache::new();
    cache.insert_session(1, 100, None, ts(0));
    cache.insert_session(2, 200, None, ts(0));
    // entry 2 is touched just before the sweep
    cache.query(2, ts(0), ts(1), ts(599)).unwrap().unwrap();
    let removed = cache.prune(ts(300));
    assert_eq!(removed, vec![(1u128, 100i64)]);
    assert!(!cache.contains(1));
    assert!(cache.contains(2));
}

#[test]
fn evicted_token_behaves_like_a_fresh_miss() {
    let mut cache = SessionCache::new();
    let token = 77;
    let cursor = LogCursor::new(log_lines(&[1, 2, 3]), ts(0));
    cache.insert_session(token, 9, Some(cursor), ts(0));
    let _ = cache.query(token, ts(1), ts(2), ts(1)).unwrap().unwrap();
    let removed = cache.prune(ts(1000));
    assert_eq!(removed, vec![(77u128, 9i64)]);
    // the token now misses, exactly like one never seen
    assert!(cache.query(token, ts(1), ts(3), ts(1001)).is_none());
    // re-inserting starts over from a fresh cursor at the log start
    let cursor = LogCursor::new(log_lines(&[1, 2, 3]), ts(0));
    cache.insert_session(token, 9, Some(cursor), ts(1001));
    let items = cache.query(token, ts(1), ts(3), ts(1002)).unwrap().unwrap();
    let tss: Vec<i64> = items.iter().map(|i| i.ts).collect();
    assert_eq!(tss, vec![ts(1), ts(2), ts(3)]);
}

#[test]
fn parse_failure_leaves_the_entry_usable() {
    let mut cache = SessionCache::new();
    let mut lines = log_lines(&[1, 3]);
    lines.insert(1, "garbage".to_string());
    let cursor = LogCursor::new(lines, ts(0));
    cache.insert_session(3, 4, Some(cursor), ts(0));
    assert!(cache.query(3, ts(1), ts(3), ts(1)).unwrap().is_err());
    assert!(cache.contains(3));
    let retry = cache.query(3, ts(1), ts(3), ts(2)).unwrap().unwrap();
    assert_eq!(retry.len(), 1);
    assert_eq!(retry[0].ts, ts(3));
}
