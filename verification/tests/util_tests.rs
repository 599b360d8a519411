use apple_music_rpc::structs::{ITunesAppName, ScriptParams};
use apple_music_rpc::util::{choose_app_name, parse_major_minor};
use apple_music_rpc::structs::scripts;

#[test]
fn version_text_parses_to_major_minor() {
    assert_eq!(parse_major_minor("10.15.7"), Some((10, 15)));
    assert_eq!(parse_major_minor("14.2"), Some((14, 2)));
    assert_eq!(parse_major_minor("14"), None);
    assert_eq!(parse_major_minor("beta"), None);
    assert_eq!(parse_major_minor(""), None);
}

#[test]
fn app_name_follows_the_version() {
    assert_eq!(choose_app_name(10, 15), ITunesAppName::Music);
    assert_eq!(choose_app_name(11, 0), ITunesAppName::Music);
    assert_eq!(choose_app_name(10, 14), ITunesAppName::ITunes);
    assert_eq!(choose_app_name(10, 1), ITunesAppName::ITunes);
    assert_eq!(choose_app_name(10, 2), ITunesAppName::Music);
    assert_eq!(choose_app_name(9, 99), ITunesAppName::ITunes);
}

#[test]
fn app_names_spell_as_the_player_expects() {
    assert_eq!(ITunesAppName::Music.to_string(), "Music");
    assert_eq!(ITunesAppName::ITunes.to_string(), "iTunes");
}

#[test]
fn scripts_address_the_named_application() {
    let s = scripts();
    assert!(s.is_open.contains("System Events"));
    assert!(s.get_props.contains("currentTrack"));
    assert!(s.get_position.contains("playerPosition"));
    assert!(s.get_state.contains("playerState"));
    let p = ScriptParams { name: "Music".to_string() };
    assert_eq!(p.name, "Music");
}
