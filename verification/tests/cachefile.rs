use js_watcher::cachefile::{format_checksums, parse_checksums};
use js_watcher::changes::CacheMap;

#[test]
fn format_and_parse_round_trip() {
    let mut c = CacheMap::new();
    c.set("/p/a.js".to_string(), 12345);
    c.set("/p/b.js".to_string(), -1);
    c.set("/p/c.js".to_string(), 0);
    let text = format_checksums(&c);
    assert_eq!(text, "/p/a.js 12345\n/p/b.js -1\n/p/c.js 0");
    let back = parse_checksums(&text).unwrap();
    assert_eq!(back.items, c.items);
}

#[test]
fn empty_record_round_trip() {
    let c = CacheMap::new();
    let text = format_checksums(&c);
    assert_eq!(text, "");
    let back = parse_checksums(&text).unwrap();
    assert_eq!(back.items.len(), 0);
}

#[test]
fn parse_tolerates_extra_blanks_and_trailing_newline() {
    let back = parse_checksums("  /p/a.js   7  \n/p/b.js -1\n").unwrap();
    assert_eq!(back.items, vec![("/p/a.js".to_string(), 7), ("/p/b.js".to_string(), -1)]);
}

#[test]
fn parse_rejects_bad_lines() {
    assert!(parse_checksums("/p/a.js").is_none());
    assert!(parse_checksums("/p/a.js abc").is_none());
    assert!(parse_checksums("/p/a.js 1\n\n/p/b.js 2").is_none());
    assert!(parse_checksums("/p/a.js 99999999999999999999999").is_none());
}

#[test]
fn cache_lookup_takes_the_last_record() {
    let mut c = CacheMap::new();
    c.set("/p/a.js".to_string(), 1);
    c.set("/p/a.js".to_string(), 2);
    assert_eq!(c.get("/p/a.js"), Some(2));
    assert_eq!(c.get("/p/missing.js"), None);
}
