//! The artwork resolver's decisions: cache lookups, the search request to
//! issue, the album-to-track fallback, and what to keep of a response.
//!
//! The caller performs the network fetch between steps and hands the
//! decoded results back; every decision around that fetch is made here.

use vstd::prelude::*;

use crate::cache::{cleaned, lookup_infos, set_result, Cache, CacheEntryView};
use crate::structs::{clone_opt_string, ITunesInfos, ITunesInfosView, ResponseInner,
    ResponseInnerView};

verus! {

/// The lookup key and search term for a track: the artist's name, one
/// space, the track's name. This exact shape is also the persisted cache
/// key, so it must stay stable within a cache version.
pub open spec fn query_of(artist: Seq<char>, name: Seq<char>) -> Seq<char> {
    artist + seq![' '] + name
}

/// Build the lookup key for a track.
pub fn lookup_key(artist: &str, name: &str) -> (k: String)
    ensures
        k@ == query_of(artist@, name@),
{
    let mut k = artist.to_owned();
    k.append(" ");
    k.append(name);
    proof {
        reveal_strlit(" ");
        assert(" "@ =~= seq![' ']);
        assert(k@ =~= query_of(artist@, name@));
    }
    k
}

/// The image of a parameter list.
pub open spec fn params_view(p: Seq<(String, String)>) -> Seq<(Seq<char>, Seq<char>)> {
    p.map_values(|q: (String, String)| (q.0@, q.1@))
}

/// The query parameters of a catalog search: music, a single result, the
/// query term, and — for an album-scoped search — the album entity.
pub open spec fn spec_search_params(q: Seq<char>, album: bool) -> Seq<(Seq<char>, Seq<char>)> {
    let base = seq![("media"@, "music"@), ("limit"@, "1"@), (("term")@, q)];
    if album {
        base.push(("entity"@, "album"@))
    } else {
        base
    }
}

/// Build the query parameters of a catalog search.
pub fn search_params(query: &str, album: bool) -> (r: Vec<(String, String)>)
    ensures
        params_view(r@) == spec_search_params(query@, album),
{
    let mut r: Vec<(String, String)> = Vec::new();
    r.push((String::from_str("media"), String::from_str("music")));
    r.push((String::from_str("limit"), String::from_str("1")));
    r.push((String::from_str("term"), query.to_owned()));
    if album {
        r.push((String::from_str("entity"), String::from_str("album")));
    }
    proof {
        assert(params_view(r@) =~= spec_search_params(query@, album));
    }
    r
}

/// The serialized URL that parsing a base address with query parameters
/// yields: a function of the address and the parameters alone.
pub uninterp spec fn encoded_url(base: Seq<char>, params: Seq<(Seq<char>, Seq<char>)>) -> Seq<char>;

/// Relies on `url::Url::parse_with_params` and `Url::as_str`: for a fixed
/// base address and parameter list, the parsed URL's serialization is a
/// function of those alone. Failure can only come from parsing the base
/// address — appending the percent-encoded pairs cannot fail — so for the
/// search endpoint, which parses, success is owed.
#[verifier::external_body]
fn url_with_params(base: &str, params: &Vec<(String, String)>) -> (r: Result<String, ()>)
    ensures
        r matches Ok(u) ==> u@ == encoded_url(base@, params_view(params@)),
        base@ == "https://itunes.apple.com/search?"@ ==> r is Ok,
{
    match url::Url::parse_with_params(base, params) {
        Ok(u) => Ok(u.as_str().to_string()),
        Err(_) => Err(()),
    }
}

/// The catalog search URL for a query: the search endpoint with the
/// parameters of [`spec_search_params`]. The endpoint is fixed and always
/// parses, so building the URL cannot fail.
pub fn search_url(query: &str, album: bool) -> (u: String)
    ensures
        u@ == encoded_url(
            "https://itunes.apple.com/search?"@,
            spec_search_params(query@, album),
        ),
{
    let params = search_params(query, album);
    match url_with_params("https://itunes.apple.com/search?", &params) {
        Ok(u) => u,
        Err(()) => vstd::pervasive::unreached(),
    }
}

/// What a resolution step asks of the caller next.
#[derive(Debug, PartialEq, Eq)]
pub enum ResolveStep {
    /// Resolution is finished, with or without metadata.
    Done(Option<ITunesInfos>),
    /// Fetch the search results for this query, album-scoped or not, and
    /// hand them to [`resolve_response`].
    Search { query: String, album: bool },
}

/// The metadata kept of a search result: the higher-resolution artwork
/// when present, else the lower one, and the share link.
pub open spec fn chosen_infos(r0: ResponseInnerView) -> ITunesInfosView {
    ITunesInfosView {
        artwork: if r0.artwork_url_600 is Some {
            r0.artwork_url_600
        } else {
            r0.artwork_url_100
        },
        url: r0.collection_view_url,
    }
}

/// Begin resolving a track: consult the cache first. A hit finishes
/// immediately, with no network request; a miss asks the caller to search,
/// album-scoped when `prefer_album` says so.
pub fn resolve_start(
    cache: &mut Cache,
    name: &str,
    artist: &str,
    prefer_album: bool,
    now: u64,
) -> (r: ResolveStep)
    requires
        old(cache).wf(),
    ensures
        final(cache).wf(),
        final(cache).entries() == cleaned(old(cache).entries(), now, old(cache).max_age),
        final(cache).version == old(cache).version,
        final(cache).max_age == old(cache).max_age,
        final(cache).dirty == (old(cache).dirty || final(cache).entries() != old(
            cache,
        ).entries()),
        lookup_infos(final(cache).entries(), query_of(artist@, name@)) matches Some(i) ==> (
        r matches ResolveStep::Done(o) && o matches Some(v) && v@ == i),
        lookup_infos(final(cache).entries(), query_of(artist@, name@)) is None ==> (
        r matches ResolveStep::Search { query, album } && query@ == query_of(artist@, name@)
            && album == prefer_album),
{
    let key = lookup_key(artist, name);
    match cache.get(key.as_str(), now) {
        Some(v) => ResolveStep::Done(Some(v)),
        None => ResolveStep::Search { query: key, album: prefer_album },
    }
}

/// Take a search response in.
///
/// An empty album-scoped response asks for exactly one broader retry: the
/// same query without the album filter. An empty unscoped response ends
/// the resolution with no metadata, and writes nothing to the cache, so a
/// later search can still populate it. A non-empty response keeps the
/// first result's metadata, caches it under the original query, and ends
/// the resolution with it.
pub fn resolve_response(
    cache: &mut Cache,
    query: String,
    album: bool,
    results: &Vec<ResponseInner>,
    now: u64,
) -> (r: ResolveStep)
    requires
        old(cache).wf(),
    ensures
        final(cache).wf(),
        final(cache).version == old(cache).version,
        final(cache).max_age == old(cache).max_age,
        results@.len() == 0 && album ==> (r matches ResolveStep::Search { query: q2, album: a2 }
            && q2@ == query@ && a2 == false && final(cache).entries() == old(cache).entries()
            && final(cache).dirty == old(cache).dirty),
        results@.len() == 0 && !album ==> (r matches ResolveStep::Done(o) && o is None
            && final(cache).entries() == old(cache).entries() && final(cache).dirty == old(
            cache,
        ).dirty),
        results@.len() > 0 ==> (r matches ResolveStep::Done(o) && o matches Some(v) && v@
            == chosen_infos(results@[0]@) && final(cache).entries() == set_result(
            old(cache).entries(),
            query@,
            CacheEntryView { data: chosen_infos(results@[0]@), created_at: now },
            now,
            old(cache).max_age,
        ) && final(cache).dirty),
{
    if results.len() == 0 {
        if album {
            return ResolveStep::Search { query, album: false };
        }
        return ResolveStep::Done(None);
    }
    let first = &results[0];
    let artwork = if first.artwork_url_600.is_some() {
        clone_opt_string(&first.artwork_url_600)
    } else {
        clone_opt_string(&first.artwork_url_100)
    };
    let infos = ITunesInfos { artwork, url: clone_opt_string(&first.collection_view_url) };
    let kept = infos.clone();
    cache.set(query, infos, now);
    ResolveStep::Done(Some(kept))
}

} // verus!
