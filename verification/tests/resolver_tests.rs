use apple_music_rpc::cache::Cache;
use apple_music_rpc::resolver::{lookup_key, resolve_response, resolve_start, search_params,
    search_url, ResolveStep};
use apple_music_rpc::structs::ResponseInner;

fn result(a100: Option<&str>, a600: Option<&str>, url: Option<&str>) -> ResponseInner {
    ResponseInner {
        artwork_url_100: a100.map(|s| s.to_string()),
        artwork_url_600: a600.map(|s| s.to_string()),
        collection_view_url: url.map(|s| s.to_string()),
    }
}

#[test]
fn lookup_key_is_artist_space_name() {
    assert_eq!(lookup_key("Band", "Song"), "Band Song");
    assert_eq!(lookup_key("", ""), " ");
}

#[test]
fn search_params_hold_the_fixed_request() {
    let p = search_params("Band Song", true);
    assert_eq!(p.len(), 4);
    assert_eq!(p[0], ("media".to_string(), "music".to_string()));
    assert_eq!(p[1], ("limit".to_string(), "1".to_string()));
    assert_eq!(p[2], ("term".to_string(), "Band Song".to_string()));
    assert_eq!(p[3], ("entity".to_string(), "album".to_string()));
    let q = search_params("Band Song", false);
    assert_eq!(q.len(), 3);
}

#[test]
fn search_url_encodes_the_query() {
    let u = search_url("Band Song", true);
    assert_eq!(
        u,
        "https://itunes.apple.com/search?media=music&limit=1&term=Band+Song&entity=album"
    );
    let v = search_url("Band Song", false);
    assert_eq!(v, "https://itunes.apple.com/search?media=music&limit=1&term=Band+Song");
}

#[test]
fn cache_miss_asks_for_album_search() {
    let mut c = Cache::new();
    match resolve_start(&mut c, "Song", "Band", true, 100) {
        ResolveStep::Search { query, album } => {
            assert_eq!(query, "Band Song");
            assert!(album);
        }
        other => panic!("expected a search, got {:?}", other),
    }
}

#[test]
fn cache_hit_skips_the_search() {
    let mut c = Cache::new();
    let first = vec![result(None, Some("https://img/1"), None)];
    resolve_response(&mut c, "Band Song".to_string(), true, &first, 100);
    match resolve_start(&mut c, "Song", "Band", true, 101) {
        ResolveStep::Done(Some(i)) => assert_eq!(i.artwork.as_deref(), Some("https://img/1")),
        other => panic!("expected cached metadata, got {:?}", other),
    }
}

#[test]
fn empty_album_search_retries_without_album_once() {
    let mut c = Cache::new();
    let empty: Vec<ResponseInner> = Vec::new();
    match resolve_response(&mut c, "Band Song".to_string(), true, &empty, 100) {
        ResolveStep::Search { query, album } => {
            assert_eq!(query, "Band Song");
            assert!(!album);
        }
        other => panic!("expected the broader retry, got {:?}", other),
    }
    match resolve_response(&mut c, "Band Song".to_string(), false, &empty, 100) {
        ResolveStep::Done(None) => {}
        other => panic!("expected no metadata, got {:?}", other),
    }
}

#[test]
fn negative_results_are_not_cached() {
    let mut c = Cache::new();
    let empty: Vec<ResponseInner> = Vec::new();
    resolve_response(&mut c, "Band Song".to_string(), true, &empty, 100);
    resolve_response(&mut c, "Band Song".to_string(), false, &empty, 100);
    assert!(c.data.is_empty());
    assert!(!c.dirty);
    assert!(c.get("Band Song", 100).is_none());
}

#[test]
fn first_result_is_kept_and_cached() {
    let mut c = Cache::new();
    let results = vec![
        result(Some("https://small/1"), Some("https://big/1"), Some("https://link/1")),
        result(Some("https://small/2"), None, None),
    ];
    match resolve_response(&mut c, "Band Song".to_string(), true, &results, 100) {
        ResolveStep::Done(Some(i)) => {
            assert_eq!(i.artwork.as_deref(), Some("https://big/1"));
            assert_eq!(i.url.as_deref(), Some("https://link/1"));
        }
        other => panic!("expected metadata, got {:?}", other),
    }
    assert!(c.dirty);
    let cached = c.get("Band Song", 100).unwrap();
    assert_eq!(cached.artwork.as_deref(), Some("https://big/1"));
}

#[test]
fn low_resolution_artwork_is_the_fallback() {
    let mut c = Cache::new();
    let results = vec![result(Some("https://small/1"), None, None)];
    match resolve_response(&mut c, "k".to_string(), false, &results, 100) {
        ResolveStep::Done(Some(i)) => {
            assert_eq!(i.artwork.as_deref(), Some("https://small/1"));
            assert_eq!(i.url, None);
        }
        other => panic!("expected metadata, got {:?}", other),
    }
}
