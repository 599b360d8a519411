//! The whole pipeline on one concrete tick, from snapshot to presence.

use apple_music_rpc::cache::Cache;
use apple_music_rpc::resolver::{resolve_response, resolve_start, search_url, ResolveStep};
use apple_music_rpc::structs::{AppState, ITunesProps, ResponseInner};

#[test]
fn playing_track_with_album_result_fills_the_presence() {
    let t: i64 = 1_700_000_000_000;
    let snapshot = ITunesProps {
        name: "Song".to_string(),
        artist: "Band".to_string(),
        album: "LP".to_string(),
        duration_ms: Some(200_000),
    };
    let mut cache = Cache::new();
    let now_secs = (t / 1000) as u64;

    let step = resolve_start(&mut cache, &snapshot.name, &snapshot.artist, true, now_secs);
    let (query, album) = match step {
        ResolveStep::Search { query, album } => (query, album),
        other => panic!("cold cache must search, got {:?}", other),
    };
    assert_eq!(query, "Band Song");
    assert!(album);
    assert!(search_url(&query, album).starts_with("https://itunes.apple.com/search?"));

    let results = vec![ResponseInner {
        artwork_url_100: None,
        artwork_url_600: Some("https://img/1".to_string()),
        collection_view_url: Some("https://link/1".to_string()),
    }];
    let resolved = match resolve_response(&mut cache, query, album, &results, now_secs) {
        ResolveStep::Done(o) => o,
        other => panic!("a result must finish resolution, got {:?}", other),
    };

    match apple_music_rpc::presence::derive(true, &snapshot, 10_000, t, resolved) {
        AppState::Presence(d) => {
            assert_eq!(d.name, "Song");
            assert_eq!(d.artist, "Band");
            assert_eq!(d.artwork_url.as_deref(), Some("https://img/1"));
            assert_eq!(d.share_url.as_deref(), Some("https://link/1"));
            assert_eq!(d.start, Some(t - 10_000));
            assert_eq!(d.end, Some(t + 190_000));
        }
        AppState::Idle => panic!("a playing track must show presence"),
    }

    let cached = cache.get("Band Song", now_secs).expect("the result must be cached");
    assert_eq!(cached.artwork.as_deref(), Some("https://img/1"));
    assert_eq!(cached.url.as_deref(), Some("https://link/1"));
}
