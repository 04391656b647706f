use bksync::cache::{cache_file_name, Cache, CacheEntry, CACHE_VERSION};
use bksync::checksum::{
    checksums_match, is_multipart_etag, md5_matches, md5_of_file, normalize_etag,
};
use bksync::keys::{KeyMap, KeySet};
use bksync::text::{
    contains_char, join, same_text, side_of, signed_text, starts_with, trim_end_matches,
    trim_matches, unsigned_text, Side,
};
use bksync::time::{file_time_parts, Timestamp, FIRST_SECOND, LAST_SECOND};

fn entry(md5: &str, mtime: i64, etag: &str) -> CacheEntry {
    CacheEntry {
        md5: md5.to_string(),
        mtime,
        etag: etag.to_string(),
        last_modified: String::new(),
    }
}

fn at(secs: i64, nanos: u32) -> Timestamp {
    Timestamp::from_parts(secs, nanos).unwrap()
}

#[test]
fn text_is_searched_and_compared() {
    assert!(contains_char("a-b", '-'));
    assert!(!contains_char("ab", '-'));
    assert!(!contains_char("", '-'));
    assert!(starts_with("docs/a.md", "docs/"));
    assert!(starts_with("docs", ""));
    assert!(!starts_with("doc", "docs"));
    assert!(same_text("häß", "häß"));
    assert!(!same_text("a", "b"));
    assert!(matches!(side_of("a", "b"), Side::Before));
    assert!(matches!(side_of("ab", "a"), Side::After));
    assert!(matches!(side_of("a", "a"), Side::Same));
    assert!(matches!(side_of("\u{ffff}", "\u{10000}"), Side::Before));
}

#[test]
fn text_is_trimmed() {
    assert_eq!(trim_matches("\"\"abc\"", '"'), "abc");
    assert_eq!(trim_matches("a\"b", '"'), "a\"b");
    assert_eq!(trim_matches("\"\"\"", '"'), "");
    assert_eq!(trim_matches("", '"'), "");
    assert_eq!(trim_matches("\"é\"", '"'), "é");
    assert_eq!(trim_end_matches("docs//", '/'), "docs");
    assert_eq!(trim_end_matches("//", '/'), "");
    assert_eq!(trim_end_matches("/docs", '/'), "/docs");
}

#[test]
fn numbers_are_written_in_decimal() {
    assert_eq!(unsigned_text(0), "0");
    assert_eq!(unsigned_text(u64::MAX), "18446744073709551615");
    assert_eq!(signed_text(-120), "-120");
    assert_eq!(signed_text(i64::MIN), "-9223372036854775808");
    assert_eq!(signed_text(1700000000123456789), "1700000000123456789");
    assert_eq!(join("ab", "cd"), "abcd");
}

#[test]
fn map_keeps_keys_in_order() {
    let mut map: KeyMap<bool> = KeyMap::new();
    for key in ["b", "a", "c/d", "c"] {
        map.insert(key.to_string(), true);
    }
    map.insert("a".to_string(), false);
    let keys: Vec<String> = (0..map.len()).map(|i| map.key_at(i).clone()).collect();
    assert_eq!(keys, vec!["a", "b", "c", "c/d"]);
    assert_eq!(map.get("a"), Some(&false));
    assert_eq!(*map.value_at(1), true);
    assert_eq!(map.get("d"), None);
    map.remove("b");
    map.remove("zz");
    assert!(!map.contains("b"));
    assert_eq!(map.len(), 3);
}

#[test]
fn set_holds_each_key_once() {
    let mut set = KeySet::new();
    set.insert("x".to_string());
    set.insert("x".to_string());
    set.insert("a".to_string());
    assert_eq!(set.len(), 2);
    assert_eq!(set.key_at(0), "a");
    assert!(set.contains("x"));
    assert!(!set.contains("y"));
}

#[test]
fn times_stay_within_the_calendar() {
    assert!(Timestamp::from_parts(FIRST_SECOND, 0).is_some());
    assert!(Timestamp::from_parts(FIRST_SECOND - 1, 0).is_none());
    assert!(Timestamp::from_parts(LAST_SECOND, 999_999_999).is_some());
    assert!(Timestamp::from_parts(LAST_SECOND + 1, 0).is_none());
    assert!(Timestamp::from_parts(0, 1_000_000_000).is_none());
    assert!(Timestamp::from_parts(59, 1_500_000_000).is_none());
}

#[test]
fn service_times_fall_back_to_the_epoch() {
    assert_eq!(Timestamp::from_service(1_500_000_000).unix_nanos(), Some(1_500_000_000));
    assert_eq!(Timestamp::from_service(-1).unix_nanos(), Some(0));
    assert_eq!(Timestamp::from_service(-2_000_000_000).unix_nanos(), Some(-2_000_000_000));
    assert_eq!(Timestamp::from_service(i128::MAX).unix_nanos(), Some(0));
    assert_eq!(Timestamp::from_service(i128::MIN).unix_nanos(), Some(0));
    assert_eq!(Timestamp::epoch().unix_nanos(), Some(0));
}

#[test]
fn times_are_compared_in_whole_seconds() {
    assert_eq!(at(10, 0).seconds_after(&at(8, 500_000_000)), 1);
    assert_eq!(at(8, 500_000_000).seconds_after(&at(10, 0)), -1);
    assert_eq!(at(10, 0).seconds_after(&at(9, 1)), 0);
    assert_eq!(at(9, 1).seconds_after(&at(10, 0)), 0);
    assert_eq!(at(12, 5).seconds_after(&at(10, 5)), 2);
    assert!(at(10, 1).is_after(&at(10, 0)));
    assert!(!at(10, 0).is_after(&at(10, 0)));
    assert!(!at(-1, 5).is_after(&at(0, 0)));
}

#[test]
fn times_are_written_in_rfc_3339() {
    assert_eq!(at(0, 0).to_rfc3339(), "1970-01-01T00:00:00+00:00");
    assert_eq!(at(1_700_000_000, 0).to_rfc3339(), "2023-11-14T22:13:20+00:00");
    assert_eq!(at(1_700_000_000, 500_000_000).to_rfc3339(), "2023-11-14T22:13:20.500+00:00");
}

#[test]
fn recorded_times_are_nanoseconds() {
    assert_eq!(at(1, 5).mtime(), 1_000_000_005);
    assert_eq!(at(-1, 5).mtime(), 0);
    assert_eq!(at(LAST_SECOND, 0).unix_nanos(), None);
    assert_eq!(at(18_446_744_073, 709_551_621).mtime(), 5);
}

#[test]
fn file_time_survives_being_set() {
    assert_eq!(file_time_parts(&at(1_700_000_000, 123)), (1_700_000_000, 123));
    assert_eq!(file_time_parts(&at(-2, 0)), (-2, 0));
    assert_eq!(file_time_parts(&at(-2, 500_000_000)), (-1, (-500_000_000i64) as u32));
    assert_eq!(file_time_parts(&at(LAST_SECOND, 0)), (0, 0));
}

#[test]
fn checksum_is_md5_in_hexadecimal() {
    assert_eq!(md5_of_file(b"hello world"), "5eb63bbbe01eeed093cb22bb8f5acdc3");
    assert_eq!(md5_of_file(b""), "d41d8cd98f00b204e9800998ecf8427e");
}

#[test]
fn tags_lose_their_quotes_once_and_for_all() {
    assert_eq!(normalize_etag("\"abc\""), "abc");
    assert_eq!(normalize_etag(normalize_etag("\"abc\"")), "abc");
    assert_eq!(normalize_etag("abc"), "abc");
    assert!(is_multipart_etag("abc-2"));
    assert!(!is_multipart_etag("abc"));
}

#[test]
fn content_is_compared_by_checksum() {
    let tag = "\"5eb63bbbe01eeed093cb22bb8f5acdc3\"";
    assert!(checksums_match(Some(b"hello world"), tag));
    assert!(!checksums_match(Some(b"hello"), tag));
    assert!(!checksums_match(None, tag));
    assert!(!checksums_match(Some(b"hello world"), "5eb63bbbe01eeed093cb22bb8f5acdc3-1"));
    assert!(md5_matches(Some("abc"), "\"abc\""));
    assert!(!md5_matches(Some("a-1"), "a-1"));
    assert!(!md5_matches(None, "abc"));
}

#[test]
fn cache_gives_back_what_was_written() {
    let mut cache = Cache::load(None);
    assert!(cache.get("a").is_none());
    cache.set("a".to_string(), entry("m", 7, "t"));
    cache.set("b".to_string(), entry("n", 8, "u"));
    assert_eq!(cache.get("a").unwrap().md5, "m");
    assert_eq!(cache.get("a").unwrap().mtime, 7);
    cache.set("a".to_string(), entry("o", 9, "v"));
    assert_eq!(cache.get("a").unwrap().etag, "v");
    assert_eq!(cache.get("b").unwrap().etag, "u");
    cache.remove("a");
    assert!(cache.get("a").is_none());
    assert_eq!(cache.get("b").unwrap().mtime, 8);
}

#[test]
fn cache_is_stored_only_when_it_changed() {
    let mut cache = Cache::load(Some(vec![
        ("k".to_string(), entry("old", 1, "x")),
        ("k".to_string(), entry("new", 2, "y")),
    ]));
    assert_eq!(cache.get("k").unwrap().md5, "new");
    assert!(cache.save().is_none());
    cache.set("j".to_string(), entry("m", 3, "z"));
    let stored = cache.save().unwrap();
    assert_eq!(stored.len(), 2);
    assert_eq!(stored[0].0, "j");
    assert_eq!(stored[1].1.md5, "new");
    assert!(cache.save().is_none());
    assert_eq!(cache.get("j").unwrap().mtime, 3);
    let again = Cache::load(Some(stored));
    assert_eq!(again.get("k").unwrap().etag, "y");
    cache.remove("absent");
    assert!(cache.save().is_some());
}

#[test]
fn cache_file_is_named_after_the_profile() {
    assert_eq!(cache_file_name("default"), "default.json");
    assert_eq!(CACHE_VERSION, 1);
}

#[test]
fn spans_before_and_after_the_epoch_are_times() {
    let nanos = |before: bool, secs: u64, rest: u32| {
        Timestamp::from_span(before, secs, rest).and_then(|t| t.unix_nanos())
    };
    assert_eq!(nanos(false, 1, 5), Some(1_000_000_005));
    assert_eq!(nanos(true, 1, 5), Some(-1_000_000_005));
    assert_eq!(nanos(true, 2, 0), Some(-2_000_000_000));
    assert!(Timestamp::from_span(false, u64::MAX, 0).is_none());
    assert!(Timestamp::from_span(true, 1, 1_000_000_000).is_none());
}
