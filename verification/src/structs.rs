//! The data model: player snapshots, resolved metadata, presence data and
//! the scripts handed to the player automation layer.

use vstd::prelude::*;

verus! {

/// Which player application the snapshot provider should address.
#[derive(Clone, Copy, Debug, PartialEq, Eq, Structural)]
pub enum ITunesAppName {
    Music,
    ITunes,
}

impl ITunesAppName {
    /// The application name as the automation layer spells it.
    pub fn to_string(&self) -> (r: String)
        ensures
            *self is Music ==> r@ == "Music"@,
            *self is ITunes ==> r@ == "iTunes"@,
    {
        match self {
            ITunesAppName::Music => String::from_str("Music"),
            ITunesAppName::ITunes => String::from_str("iTunes"),
        }
    }
}

/// A track snapshot as the player automation layer reports it, with the
/// duration already brought to whole milliseconds.
#[derive(Clone, Debug, PartialEq, Eq)]
pub struct ITunesProps {
    pub name: String,
    pub artist: String,
    pub album: String,
    pub duration_ms: Option<i64>,
}

/// Mathematical image of a track snapshot.
pub struct ITunesPropsView {
    pub name: Seq<char>,
    pub artist: Seq<char>,
    pub album: Seq<char>,
    pub duration_ms: Option<i64>,
}

impl View for ITunesProps {
    type V = ITunesPropsView;

    open spec fn view(&self) -> ITunesPropsView {
        ITunesPropsView {
            name: self.name@,
            artist: self.artist@,
            album: self.album@,
            duration_ms: self.duration_ms,
        }
    }
}

/// Resolved track metadata: an artwork image address and a share link,
/// either of which the catalog may lack.
#[derive(Debug, PartialEq, Eq)]
pub struct ITunesInfos {
    pub artwork: Option<String>,
    pub url: Option<String>,
}

impl Clone for ITunesInfos {
    fn clone(&self) -> (r: Self)
        ensures
            r@ == self@,
    {
        ITunesInfos {
            artwork: match &self.artwork {
                Some(s) => Some(s.clone()),
                None => None,
            },
            url: match &self.url {
                Some(s) => Some(s.clone()),
                None => None,
            },
        }
    }
}

/// Mathematical image of resolved metadata.
pub struct ITunesInfosView {
    pub artwork: Option<Seq<char>>,
    pub url: Option<Seq<char>>,
}

impl View for ITunesInfos {
    type V = ITunesInfosView;

    open spec fn view(&self) -> ITunesInfosView {
        ITunesInfosView { artwork: self.artwork.deep_view(), url: self.url.deep_view() }
    }
}

/// The image of optional resolved metadata.
pub open spec fn infos_opt_view(o: Option<ITunesInfos>) -> Option<ITunesInfosView> {
    match o {
        Some(i) => Some(i@),
        None => None,
    }
}

/// One catalog search response.
#[derive(Clone, Debug, PartialEq, Eq)]
pub struct ResponseOuter {
    pub results: Vec<ResponseInner>,
}

/// One catalog search result: two artwork resolutions and a share link,
/// any of which may be absent.
#[derive(Debug, PartialEq, Eq)]
pub struct ResponseInner {
    pub artwork_url_100: Option<String>,
    pub artwork_url_600: Option<String>,
    pub collection_view_url: Option<String>,
}

/// Mathematical image of one search result.
pub struct ResponseInnerView {
    pub artwork_url_100: Option<Seq<char>>,
    pub artwork_url_600: Option<Seq<char>>,
    pub collection_view_url: Option<Seq<char>>,
}

impl View for ResponseInner {
    type V = ResponseInnerView;

    open spec fn view(&self) -> ResponseInnerView {
        ResponseInnerView {
            artwork_url_100: self.artwork_url_100.deep_view(),
            artwork_url_600: self.artwork_url_600.deep_view(),
            collection_view_url: self.collection_view_url.deep_view(),
        }
    }
}

impl Clone for ResponseInner {
    fn clone(&self) -> (r: Self)
        ensures
            r@ == self@,
    {
        ResponseInner {
            artwork_url_100: clone_opt_string(&self.artwork_url_100),
            artwork_url_600: clone_opt_string(&self.artwork_url_600),
            collection_view_url: clone_opt_string(&self.collection_view_url),
        }
    }
}

/// Clone an optional string, keeping its characters.
pub fn clone_opt_string(o: &Option<String>) -> (r: Option<String>)
    ensures
        r.deep_view() == o.deep_view(),
{
    match o {
        Some(s) => Some(s.clone()),
        None => None,
    }
}

/// What should currently be shown on the presence channel for a playing
/// track.
#[derive(Clone, Debug, PartialEq, Eq)]
pub struct PresenceData {
    pub name: String,
    pub artist: String,
    pub album: String,
    pub artwork_url: Option<String>,
    pub share_url: Option<String>,
    pub start: Option<i64>,
    pub end: Option<i64>,
}

/// Mathematical image of presence data.
pub struct PresenceDataView {
    pub name: Seq<char>,
    pub artist: Seq<char>,
    pub album: Seq<char>,
    pub artwork_url: Option<Seq<char>>,
    pub share_url: Option<Seq<char>>,
    pub start: Option<i64>,
    pub end: Option<i64>,
}

impl View for PresenceData {
    type V = PresenceDataView;

    open spec fn view(&self) -> PresenceDataView {
        PresenceDataView {
            name: self.name@,
            artist: self.artist@,
            album: self.album@,
            artwork_url: self.artwork_url.deep_view(),
            share_url: self.share_url.deep_view(),
            start: self.start,
            end: self.end,
        }
    }
}

impl PresenceData {
    /// Presence data for a snapshot: the track's names carried over, no
    /// timing and no artwork yet.
    pub fn new(props: &ITunesProps) -> (r: PresenceData)
        ensures
            r@.name == props@.name,
            r@.artist == props@.artist,
            r@.album == props@.album,
            r@.artwork_url is None,
            r@.share_url is None,
            r@.start is None,
            r@.end is None,
    {
        PresenceData {
            name: props.name.clone(),
            artist: props.artist.clone(),
            album: props.album.clone(),
            artwork_url: None,
            share_url: None,
            start: None,
            end: None,
        }
    }

    /// Attach the playback window.
    pub fn set_timing(&mut self, start: i64, end: i64)
        ensures
            final(self)@ == (PresenceDataView {
                start: Some(start),
                end: Some(end),
                ..old(self)@
            }),
    {
        self.start = Some(start);
        self.end = Some(end);
    }

    /// Attach resolved metadata: artwork address and share link.
    pub fn set_artwork_info(&mut self, infos: ITunesInfos)
        ensures
            final(self)@ == (PresenceDataView {
                artwork_url: infos@.artwork,
                share_url: infos@.url,
                ..old(self)@
            }),
    {
        self.artwork_url = infos.artwork;
        self.share_url = infos.url;
    }
}

/// What the presence channel should show: nothing, or a playing track.
#[derive(Clone, Debug, PartialEq, Eq)]
pub enum AppState {
    Idle,
    Presence(PresenceData),
}

/// Mathematical image of an application state.
pub enum AppStateView {
    Idle,
    Presence(PresenceDataView),
}

impl View for AppState {
    type V = AppStateView;

    open spec fn view(&self) -> AppStateView {
        match self {
            AppState::Idle => AppStateView::Idle,
            AppState::Presence(d) => AppStateView::Presence(d@),
        }
    }
}

/// The parameters handed to a player automation script.
#[derive(Clone, Debug, PartialEq, Eq)]
pub struct ScriptParams {
    pub name: String,
}

/// The scripts the automation layer runs against the player.
#[derive(Clone, Copy, Debug)]
pub struct ScriptCollection {
    pub is_open: &'static str,
    pub get_props: &'static str,
    pub get_position: &'static str,
    pub get_state: &'static str,
}

/// The fixed script collection used against the player.
pub fn scripts() -> (r: ScriptCollection)
    ensures
        r.is_open@ == "return Application(\"System Events\").processes[$params.name].exists();"@,
        r.get_props@ == "var App = Application($params.name); return App.currentTrack().properties();"@,
        r.get_position@ == "var App = Application($params.name); return App.playerPosition();"@,
        r.get_state@ == "var App = Application($params.name); return App.playerState();"@,
{
    ScriptCollection {
        is_open: "return Application(\"System Events\").processes[$params.name].exists();",
        get_props: "var App = Application($params.name); return App.currentTrack().properties();",
        get_position: "var App = Application($params.name); return App.playerPosition();",
        get_state: "var App = Application($params.name); return App.playerState();",
    }
}

} // verus!
