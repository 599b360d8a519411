//! Presence state derivation: from a player snapshot and resolved metadata
//! to what the presence channel should show.
//!
//! The derivation is a pure function of its inputs; the caller samples the
//! clock once per tick and hands the time in.

use vstd::prelude::*;

use crate::structs::{infos_opt_view, AppState, AppStateView, ITunesInfos, ITunesInfosView,
    ITunesProps, ITunesPropsView, PresenceData, PresenceDataView};

verus! {

/// The state derived from a snapshot: idle unless the player is playing;
/// otherwise the track's names, the playback window when the duration is
/// known, and whatever metadata resolution yielded.
pub open spec fn spec_derive(
    playing: bool,
    props: ITunesPropsView,
    position_ms: i64,
    now_ms: i64,
    resolved: Option<ITunesInfosView>,
) -> AppStateView {
    if !playing {
        AppStateView::Idle
    } else {
        AppStateView::Presence(PresenceDataView {
            name: props.name,
            artist: props.artist,
            album: props.album,
            artwork_url: match resolved {
                Some(i) => i.artwork,
                None => None,
            },
            share_url: match resolved {
                Some(i) => i.url,
                None => None,
            },
            start: match props.duration_ms {
                Some(_) => Some((now_ms - position_ms) as i64),
                None => None,
            },
            end: match props.duration_ms {
                Some(d) => Some((now_ms - position_ms + d) as i64),
                None => None,
            },
        })
    }
}

/// Whether metadata resolution should be attempted for this snapshot: only
/// when the album name is present.
pub fn wants_artwork(props: &ITunesProps) -> (r: bool)
    ensures
        r == (props@.album.len() != 0),
{
    !props.album.as_str().is_empty()
}

/// Derive the presence state for one tick.
///
/// `playing` says whether the player reported the playing condition;
/// `position_ms` is the playback position and `now_ms` the wall clock, both
/// in milliseconds; `resolved` is what metadata resolution produced, or
/// `None` when it was skipped or failed — presence is never blocked on it.
pub fn derive(
    playing: bool,
    props: &ITunesProps,
    position_ms: i64,
    now_ms: i64,
    resolved: Option<ITunesInfos>,
) -> (r: AppState)
    requires
        0 <= position_ms,
        0 <= now_ms,
        props.duration_ms matches Some(d) ==> 0 <= d && now_ms + d <= i64::MAX,
    ensures
        r@ == spec_derive(playing, props@, position_ms, now_ms, infos_opt_view(resolved)),
{
    if !playing {
        return AppState::Idle;
    }
    let mut data = PresenceData::new(props);
    if let Some(duration) = props.duration_ms {
        let start = now_ms - position_ms;
        let end = start + duration;
        data.set_timing(start, end);
    }
    if let Some(infos) = resolved {
        data.set_artwork_info(infos);
    }
    AppState::Presence(data)
}

/// What the tick should do at the presence sink for a derived state: an
/// idle state clears whatever is currently shown; a playing state is
/// shown.
#[derive(Debug, PartialEq, Eq)]
pub enum SinkOp {
    /// Clear the currently shown presence.
    Clear,
    /// Show this presence.
    Show(PresenceData),
}

/// The sink operation a derived state calls for. Idle clears, exactly;
/// anything to show is pushed as it stands.
pub fn sink_op(state: AppState) -> (r: SinkOp)
    ensures
        state@ is Idle <==> r is Clear,
        state@ matches AppStateView::Presence(d) ==> (r matches SinkOp::Show(p) && p@ == d),
{
    match state {
        AppState::Idle => SinkOp::Clear,
        AppState::Presence(d) => SinkOp::Show(d),
    }
}

/// Deriving is idempotent: two calls with identical snapshot, position,
/// clock sample and resolved metadata yield identical states.
pub proof fn lemma_derive_idempotent(
    playing: bool,
    props1: ITunesPropsView,
    props2: ITunesPropsView,
    position_ms: i64,
    now_ms: i64,
    resolved1: Option<ITunesInfosView>,
    resolved2: Option<ITunesInfosView>,
)
    requires
        props1 == props2,
        resolved1 == resolved2,
    ensures
        spec_derive(playing, props1, position_ms, now_ms, resolved1) == spec_derive(
            playing,
            props2,
            position_ms,
            now_ms,
            resolved2,
        ),
{
}

} // verus!
