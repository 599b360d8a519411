use apple_music_rpc::cache::{Cache, CacheError, CACHE_VERSION, DEFAULT_MAX_AGE_SECS};
use apple_music_rpc::structs::ITunesInfos;

fn infos(artwork: Option<&str>, url: Option<&str>) -> ITunesInfos {
    ITunesInfos {
        artwork: artwork.map(|s| s.to_string()),
        url: url.map(|s| s.to_string()),
    }
}

#[test]
fn new_cache_is_empty_and_clean() {
    let c = Cache::new();
    assert_eq!(c.version, CACHE_VERSION);
    assert_eq!(c.max_age, DEFAULT_MAX_AGE_SECS);
    assert!(c.data.is_empty());
    assert!(!c.dirty);
}

#[test]
fn set_then_get_returns_value() {
    let mut c = Cache::new();
    let now = 1_000_000;
    c.set("Band Song".to_string(), infos(Some("https://img/1"), None), now);
    assert!(c.dirty);
    let got = c.get("Band Song", now).expect("entry should be live");
    assert_eq!(got.artwork.as_deref(), Some("https://img/1"));
    assert_eq!(got.url, None);
}

#[test]
fn entry_expires_after_max_age() {
    let mut c = Cache::new();
    let now = 1_000_000;
    c.set("Band Song".to_string(), infos(Some("https://img/1"), None), now);
    let later = now + DEFAULT_MAX_AGE_SECS + 1;
    assert!(c.get("Band Song", later).is_none());
    assert!(c.data.is_empty());
}

#[test]
fn entry_still_live_at_exact_max_age() {
    let mut c = Cache::new();
    let now = 1_000_000;
    c.set("k".to_string(), infos(None, Some("https://link/1")), now);
    let at_edge = now + DEFAULT_MAX_AGE_SECS;
    assert!(c.get("k", at_edge).is_some());
}

#[test]
fn future_timestamp_counts_as_expired() {
    let mut c = Cache::new();
    c.set("k".to_string(), infos(None, None), 2_000);
    assert!(c.get("k", 1_000).is_none());
}

#[test]
fn overwrite_replaces_entry() {
    let mut c = Cache::new();
    let now = 50;
    c.set("k".to_string(), infos(Some("old"), None), now);
    c.set("k".to_string(), infos(Some("new"), None), now);
    assert_eq!(c.data.len(), 1);
    let got = c.get("k", now).unwrap();
    assert_eq!(got.artwork.as_deref(), Some("new"));
}

#[test]
fn flush_when_clean_produces_nothing() {
    let mut c = Cache::new();
    assert!(c.flush(100).is_none());
}

#[test]
fn flush_round_trips_through_load() {
    let mut c = Cache::new();
    let now = 1_000;
    c.set("Band Song".to_string(), infos(Some("https://img/1"), Some("https://link/1")), now);
    c.set("Other Artist Tune".to_string(), infos(None, None), now + 1);
    let text = c.flush(now + 2).expect("dirty cache must flush");
    c.mark_clean();
    assert!(!c.dirty);

    let mut fresh = Cache::new();
    fresh.load_cache(Some(text.as_str())).expect("own snapshot must load");
    assert_eq!(fresh.data.len(), 2);
    assert_eq!(fresh.data[0].0, "Band Song");
    assert_eq!(fresh.data[0].1.data.artwork.as_deref(), Some("https://img/1"));
    assert_eq!(fresh.data[0].1.data.url.as_deref(), Some("https://link/1"));
    assert_eq!(fresh.data[0].1.created_at, now);
    assert_eq!(fresh.data[1].0, "Other Artist Tune");
    assert_eq!(fresh.data[1].1.data.artwork, None);
    assert_eq!(fresh.data[1].1.created_at, now + 1);
}

#[test]
fn flush_drops_expired_entries() {
    let mut c = Cache::new();
    c.set("old".to_string(), infos(Some("a"), None), 10);
    c.set("fresh".to_string(), infos(Some("b"), None), 10 + DEFAULT_MAX_AGE_SECS + 100);
    let text = c.flush(10 + DEFAULT_MAX_AGE_SECS + 200).unwrap();
    let mut fresh = Cache::new();
    fresh.load_cache(Some(text.as_str())).unwrap();
    assert_eq!(fresh.data.len(), 1);
    assert_eq!(fresh.data[0].0, "fresh");
}

#[test]
fn flush_produces_exact_document() {
    let mut c = Cache::new();
    c.set("k".to_string(), infos(Some("a"), None), 5);
    let text = c.flush(6).unwrap();
    assert_eq!(
        text,
        "{\"version\":3,\"data\":{\"k\":{\"data\":{\"artwork\":\"a\",\"url\":null},\"created_at\":5}}}"
    );
}

#[test]
fn flush_output_is_json_with_original_schema() {
    let mut c = Cache::new();
    c.set("Band \"Quoted\" Song".to_string(), infos(Some("https://img/1"), None), 42);
    let text = c.flush(50).unwrap();
    let v: serde_json::Value = serde_json::from_str(&text).expect("flush output must be JSON");
    assert_eq!(v["version"], serde_json::Value::from(3u64));
    let entry = &v["data"]["Band \"Quoted\" Song"];
    assert_eq!(entry["data"]["artwork"], serde_json::Value::from("https://img/1"));
    assert!(entry["data"]["url"].is_null());
    assert_eq!(entry["created_at"], serde_json::Value::from(42u64));
}

#[test]
fn control_characters_round_trip() {
    let mut c = Cache::new();
    c.set("line\nbreak\ttab".to_string(), infos(Some("u\u{1}v"), None), 7);
    let text = c.flush(8).unwrap();
    let v: serde_json::Value = serde_json::from_str(&text).expect("must stay valid JSON");
    assert!(v["data"]["line\nbreak\ttab"].is_object());
    let mut fresh = Cache::new();
    fresh.load_cache(Some(text.as_str())).unwrap();
    assert_eq!(fresh.data[0].0, "line\nbreak\ttab");
    assert_eq!(fresh.data[0].1.data.artwork.as_deref(), Some("u\u{1}v"));
}

#[test]
fn load_missing_file_is_cold_start() {
    let mut c = Cache::new();
    assert!(c.load_cache(None).is_ok());
    assert!(c.data.is_empty());
}

#[test]
fn version_mismatch_yields_empty_store() {
    let mut c = Cache::new();
    let text = "{\"version\":4,\"data\":{}}";
    assert_eq!(c.load_cache(Some(text)), Err(CacheError::VersionMismatch));
    assert!(c.data.is_empty());
}

#[test]
fn malformed_text_is_parse_error() {
    let mut c = Cache::new();
    assert_eq!(c.load_cache(Some("not json")), Err(CacheError::ParseError));
    assert_eq!(c.load_cache(Some("{\"version\":3")), Err(CacheError::ParseError));
    assert_eq!(c.load_cache(Some("")), Err(CacheError::ParseError));
    assert!(c.data.is_empty());
}

#[test]
fn error_messages_name_the_failure() {
    assert_eq!(CacheError::FileReadError.message(), "failed to read cache file");
    assert_eq!(CacheError::ParseError.message(), "failed to parse cache data");
    assert_eq!(CacheError::VersionMismatch.message(), "cache version mismatch");
}

#[test]
fn a_failed_write_leaves_the_store_dirty() {
    let mut c = Cache::new();
    c.set("k".to_string(), infos(Some("a"), None), 5);
    let first = c.flush(6).unwrap();
    // the caller could not write: no mark_clean, so a later flush retries
    assert!(c.dirty);
    let second = c.flush(7).unwrap();
    assert_eq!(first, second);
    c.mark_clean();
    assert!(!c.dirty);
    assert!(c.flush(8).is_none());
}

#[test]
fn unicode_keys_and_values_round_trip() {
    let mut c = Cache::new();
    c.set("Bjørk Jóga".to_string(), infos(Some("https://img/ø?¿"), Some("日本語")), 9);
    let text = c.flush(10).unwrap();
    let mut fresh = Cache::new();
    fresh.load_cache(Some(text.as_str())).unwrap();
    assert_eq!(fresh.data[0].0, "Bjørk Jóga");
    assert_eq!(fresh.data[0].1.data.artwork.as_deref(), Some("https://img/ø?¿"));
    assert_eq!(fresh.data[0].1.data.url.as_deref(), Some("日本語"));
}

#[test]
fn flush_of_only_expired_entries_writes_an_empty_store() {
    let mut c = Cache::new();
    c.set("k".to_string(), infos(Some("a"), None), 5);
    let text = c.flush(5 + DEFAULT_MAX_AGE_SECS + 1).unwrap();
    assert_eq!(text, "{\"version\":3,\"data\":{}}");
    let mut fresh = Cache::new();
    fresh.load_cache(Some(text.as_str())).unwrap();
    assert!(fresh.data.is_empty());
}

#[test]
fn outgrowing_the_high_water_mark_purges_expired_entries() {
    let mut c = Cache::new();
    for i in 0..1000 {
        c.set(format!("key {}", i), infos(None, None), 10);
    }
    assert_eq!(c.data.len(), 1000);
    // one more insertion, far past the old entries' lifetime, crosses the
    // mark and triggers the eager purge
    let later = 10 + DEFAULT_MAX_AGE_SECS + 1;
    c.set("the last one".to_string(), infos(None, None), later);
    assert_eq!(c.data.len(), 1);
    assert_eq!(c.data[0].0, "the last one");
}

#[test]
fn a_timestamp_too_large_for_the_format_is_malformed() {
    let mut c = Cache::new();
    let text = "{\"version\":3,\"data\":{\"k\":{\"data\":{\"artwork\":null,\"url\":null},\"created_at\":18446744073709551616}}}";
    assert_eq!(c.load_cache(Some(text)), Err(CacheError::ParseError));
}

#[test]
fn only_canonical_escapes_are_accepted() {
    let mut c = Cache::new();
    // the writer spells a line break \u000a; the shorthand is refused
    let strict = "{\"version\":3,\"data\":{\"a\\u000ab\":{\"data\":{\"artwork\":null,\"url\":null},\"created_at\":1}}}";
    assert!(c.load_cache(Some(strict)).is_ok());
    assert_eq!(c.data[0].0, "a\nb");
    let shorthand = "{\"version\":3,\"data\":{\"a\\nb\":{\"data\":{\"artwork\":null,\"url\":null},\"created_at\":1}}}";
    assert_eq!(c.load_cache(Some(shorthand)), Err(CacheError::ParseError));
}

#[test]
fn duplicate_keys_in_a_snapshot_are_malformed() {
    let mut c = Cache::new();
    let text = "{\"version\":3,\"data\":{\"k\":{\"data\":{\"artwork\":null,\"url\":null},\"created_at\":1},\"k\":{\"data\":{\"artwork\":null,\"url\":null},\"created_at\":2}}}";
    assert_eq!(c.load_cache(Some(text)), Err(CacheError::ParseError));
}

#[test]
fn trailing_text_after_the_document_is_malformed() {
    let mut c = Cache::new();
    assert_eq!(c.load_cache(Some("{\"version\":3,\"data\":{}} ")), Err(CacheError::ParseError));
    assert_eq!(c.load_cache(Some("{\"version\":3,\"data\":{}}}")), Err(CacheError::ParseError));
}

#[test]
fn quotes_and_backslashes_round_trip() {
    let mut c = Cache::new();
    c.set("a\"b\\c".to_string(), infos(Some("x\\y\"z"), None), 3);
    let text = c.flush(4).unwrap();
    let v: serde_json::Value = serde_json::from_str(&text).expect("must stay valid JSON");
    assert!(v["data"]["a\"b\\c"].is_object());
    let mut fresh = Cache::new();
    fresh.load_cache(Some(text.as_str())).unwrap();
    assert_eq!(fresh.data[0].0, "a\"b\\c");
    assert_eq!(fresh.data[0].1.data.artwork.as_deref(), Some("x\\y\"z"));
}

#[test]
fn purging_marks_the_store_dirty() {
    let mut c = Cache::new();
    c.set("k".to_string(), infos(Some("a"), None), 10);
    let text = c.flush(11).unwrap();
    c.mark_clean();
    assert!(!c.dirty);
    // a read far in the future purges the entry: memory now differs from
    // the snapshot, so the next flush must write again
    let later = 11 + DEFAULT_MAX_AGE_SECS + 1;
    assert!(c.get("k", later).is_none());
    assert!(c.dirty);
    let rewritten = c.flush(later).expect("the purge must be persisted");
    assert_ne!(rewritten, text);
    assert_eq!(rewritten, "{\"version\":3,\"data\":{}}");
}

#[test]
fn a_read_that_purges_nothing_keeps_the_store_clean() {
    let mut c = Cache::new();
    c.set("k".to_string(), infos(Some("a"), None), 10);
    c.flush(11).unwrap();
    c.mark_clean();
    assert!(c.get("k", 12).is_some());
    assert!(!c.dirty);
    assert!(c.flush(12).is_none());
}
