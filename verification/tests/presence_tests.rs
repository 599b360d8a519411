use apple_music_rpc::presence::{sink_op, wants_artwork, SinkOp};
use apple_music_rpc::structs::{AppState, ITunesInfos, ITunesProps};

fn props(name: &str, artist: &str, album: &str, duration_ms: Option<i64>) -> ITunesProps {
    ITunesProps {
        name: name.to_string(),
        artist: artist.to_string(),
        album: album.to_string(),
        duration_ms,
    }
}

#[test]
fn not_playing_is_idle() {
    let p = props("Song", "Band", "LP", Some(200_000));
    match apple_music_rpc::presence::derive(false, &p, 10_000, 1_000_000, None) {
        AppState::Idle => {}
        other => panic!("expected idle, got {:?}", other),
    }
}

#[test]
fn playing_with_duration_gets_the_window() {
    let p = props("Song", "Band", "LP", Some(200_000));
    let now = 1_000_000;
    match apple_music_rpc::presence::derive(true, &p, 10_000, now, None) {
        AppState::Presence(d) => {
            assert_eq!(d.name, "Song");
            assert_eq!(d.artist, "Band");
            assert_eq!(d.album, "LP");
            assert_eq!(d.start, Some(now - 10_000));
            assert_eq!(d.end, Some(now - 10_000 + 200_000));
            assert_eq!(d.artwork_url, None);
            assert_eq!(d.share_url, None);
        }
        other => panic!("expected presence, got {:?}", other),
    }
}

#[test]
fn unknown_duration_leaves_timing_unset() {
    let p = props("Song", "Band", "LP", None);
    match apple_music_rpc::presence::derive(true, &p, 10_000, 1_000_000, None) {
        AppState::Presence(d) => {
            assert_eq!(d.start, None);
            assert_eq!(d.end, None);
        }
        other => panic!("expected presence, got {:?}", other),
    }
}

#[test]
fn derive_is_idempotent() {
    let p = props("Song", "Band", "LP", Some(200_000));
    let resolved = || Some(ITunesInfos {
        artwork: Some("https://img/1".to_string()),
        url: Some("https://link/1".to_string()),
    });
    let a = apple_music_rpc::presence::derive(true, &p, 10_000, 1_000_000, resolved());
    let b = apple_music_rpc::presence::derive(true, &p, 10_000, 1_000_000, resolved());
    assert_eq!(a, b);
}

#[test]
fn artwork_wanted_only_with_an_album() {
    assert!(wants_artwork(&props("Song", "Band", "LP", None)));
    assert!(!wants_artwork(&props("Song", "Band", "", None)));
}

#[test]
fn idle_clears_and_presence_sets() {
    assert_eq!(sink_op(AppState::Idle), SinkOp::Clear);
    let p = props("Song", "Band", "LP", None);
    match apple_music_rpc::presence::derive(true, &p, 0, 0, None) {
        st @ AppState::Presence(_) => match sink_op(st) {
            SinkOp::Show(d) => assert_eq!(d.name, "Song"),
            SinkOp::Clear => panic!("a playing state must be shown"),
        },
        AppState::Idle => panic!("expected presence"),
    }
}
