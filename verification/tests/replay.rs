//! Window replay through the log cursor: completeness, touching
//! windows, boundary duplication, backward seeks, and malformed lines.

use streamwatch::cursor::LogCursor;
use streamwatch::parse::{parse_line, ParseError};

const BASE: i64 = 1609459200000; // 2021-01-01T00:00:00Z

fn ts(sec: i64) -> i64 {
    BASE + sec * 1000
}

fn line(sec: i64, payload: &str) -> String {
    format!("2021-01-01T00:00:{:02}Z {}", sec, payload)
}

fn log_lines(secs: &[i64]) -> Vec<String> {
    secs.iter()
        .map(|&s| line(s, &format!("{{\"n\":{}}}", s)))
        .collect()
}

fn cursor_over(secs: &[i64]) -> LogCursor {
    LogCursor::new(log_lines(secs), ts(0))
}

#[test]
fn full_window_returns_every_item_in_order() {
    let mut c = cursor_over(&[1, 2, 3, 4, 5]);
    let items = c.get_between(ts(1), ts(5)).unwrap();
    assert_eq!(items.len(), 5);
    for (i, item) in items.iter().enumerate() {
        assert_eq!(item.ts, ts(1 + i as i64));
        assert_eq!(item.content, format!("{{\"n\":{}}}", 1 + i));
    }
    assert_eq!(c.lines_read(), 5);
}

#[test]
fn touching_windows_partition_without_rescan() {
    let mut c = cursor_over(&[1, 2, 3, 4, 5, 6]);
    let first = c.get_between(ts(1), ts(3)).unwrap();
    let read_after_first = c.lines_read();
    // the scan stops on the first line past the window and stashes it
    assert_eq!(read_after_first, 4);
    let second = c.get_between(ts(4), ts(6)).unwrap();
    let firsts: Vec<i64> = first.iter().map(|i| i.ts).collect();
    let seconds: Vec<i64> = second.iter().map(|i| i.ts).collect();
    assert_eq!(firsts, vec![ts(1), ts(2), ts(3)]);
    assert_eq!(seconds, vec![ts(4), ts(5), ts(6)]);
    // every line was read exactly once over both calls
    assert_eq!(c.lines_read(), 6);
}

#[test]
fn arbitrary_touching_split_still_partitions_the_items() {
    let mut c = cursor_over(&[1, 2, 3, 4, 5]);
    let first = c.get_between(ts(1), ts(2)).unwrap();
    // the split point falls strictly between two items; the result is
    // still an exact partition, at the price of an internal rewind
    let second = c.get_between(ts(2) + 500, ts(5)).unwrap();
    let firsts: Vec<i64> = first.iter().map(|i| i.ts).collect();
    let seconds: Vec<i64> = second.iter().map(|i| i.ts).collect();
    assert_eq!(firsts, vec![ts(1), ts(2)]);
    assert_eq!(seconds, vec![ts(3), ts(4), ts(5)]);
}

#[test]
fn shared_boundary_item_appears_in_both_results() {
    let mut c = cursor_over(&[1, 2, 3, 4, 5]);
    let first = c.get_between(ts(1), ts(3)).unwrap();
    let second = c.get_between(ts(3), ts(5)).unwrap();
    assert_eq!(first.last().unwrap().ts, ts(3));
    assert_eq!(second.first().unwrap().ts, ts(3));
    let seconds: Vec<i64> = second.iter().map(|i| i.ts).collect();
    assert_eq!(seconds, vec![ts(3), ts(4), ts(5)]);
}

#[test]
fn backward_window_rescans_and_returns_exactly_the_window() {
    let mut c = cursor_over(&[1, 2, 3, 4, 5, 6, 7, 8, 9]);
    let _ = c.get_between(ts(5), ts(9)).unwrap();
    let back = c.get_between(ts(1), ts(3)).unwrap();
    let tss: Vec<i64> = back.iter().map(|i| i.ts).collect();
    assert_eq!(tss, vec![ts(1), ts(2), ts(3)]);
}

#[test]
fn window_before_next_item_keeps_the_lookahead() {
    let mut c = cursor_over(&[1, 5, 9]);
    let first = c.get_between(ts(1), ts(2)).unwrap();
    assert_eq!(first.len(), 1);
    assert_eq!(first[0].ts, ts(1));
    // the line at five seconds was read once and stashed
    assert_eq!(c.lines_read(), 2);
    let second = c.get_between(ts(5), ts(9)).unwrap();
    let tss: Vec<i64> = second.iter().map(|i| i.ts).collect();
    assert_eq!(tss, vec![ts(5), ts(9)]);
    assert_eq!(c.lines_read(), 3);
}

#[test]
fn empty_log_yields_empty_windows() {
    let mut c = LogCursor::new(Vec::new(), ts(0));
    assert!(c.get_between(ts(0), ts(100)).unwrap().is_empty());
    assert_eq!(c.lines_read(), 0);
}

#[test]
fn inverted_window_returns_nothing() {
    let mut c = cursor_over(&[1, 2, 3]);
    assert!(c.get_between(ts(3), ts(1)).unwrap().is_empty());
}

#[test]
fn malformed_line_fails_and_retry_resumes_past_it() {
    let mut lines = log_lines(&[1, 3]);
    lines.insert(1, "garbage".to_string());
    let mut c = LogCursor::new(lines, ts(0));
    let err = c.get_between(ts(1), ts(3)).unwrap_err();
    assert_eq!(err, ParseError::MissingSeparator);
    // the entry survives partially advanced: the retry resumes after
    // the failing line instead of starting over
    let rest = c.get_between(ts(1), ts(3)).unwrap();
    assert_eq!(rest.len(), 1);
    assert_eq!(rest[0].ts, ts(3));
}

#[test]
fn parse_line_reads_timestamp_and_payload() {
    let item = parse_line("2021-01-01T00:00:05Z {\"msg\":\"hi\"}").unwrap();
    assert_eq!(item.ts, ts(5));
    assert_eq!(item.content, "{\"msg\":\"hi\"}");
}

#[test]
fn parse_line_accepts_offset_timestamps() {
    let item = parse_line("2021-01-01T01:00:05+01:00 7").unwrap();
    assert_eq!(item.ts, ts(5));
    assert_eq!(item.content, "7");
}

#[test]
fn parse_line_rejects_missing_separator() {
    assert_eq!(
        parse_line("2021-01-01T00:00:05Z").unwrap_err(),
        ParseError::MissingSeparator
    );
}

#[test]
fn parse_line_rejects_bad_timestamp() {
    assert_eq!(
        parse_line("yesterday {\"msg\":\"hi\"}").unwrap_err(),
        ParseError::BadTimestamp
    );
}

#[test]
fn parse_line_rejects_bad_payload() {
    assert_eq!(
        parse_line("2021-01-01T00:00:05Z {\"msg\":").unwrap_err(),
        ParseError::BadPayload
    );
}
