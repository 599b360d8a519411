//! The disk-backed, time-to-live metadata cache.
//!
//! The cache maps a query string to resolved track metadata together with
//! its creation time. Entries older than `max_age` are purged lazily on
//! every read. The store is kept as a key-unique association list so that
//! its persisted image is a deterministic function of the state; the caller
//! reads and writes the actual file and hands the text in and out.

use vstd::prelude::*;

use crate::persist::{chars_to_string, doc_at, parse_doc, ser_doc, serialize_cache, str_chars};
use crate::structs::{ITunesInfos, ITunesInfosView};

verus! {

/// Version of the persisted format; a persisted file with any other version
/// is discarded wholesale.
pub const CACHE_VERSION: u64 = 3;

/// Default time-to-live of an entry, in seconds: one week.
pub const DEFAULT_MAX_AGE_SECS: u64 = 7 * 24 * 60 * 60;

/// When the store holds more live-or-dead entries than this, an insertion
/// eagerly purges expired entries to bound memory.
pub const CACHE_HIGH_WATER: usize = 1000;

/// Why a persisted snapshot could not be used.
#[derive(Clone, Copy, Debug, PartialEq, Eq, Structural)]
pub enum CacheError {
    /// The caller could not read the cache file.
    FileReadError,
    /// The file's text is not a well-formed snapshot.
    ParseError,
    /// The file is a snapshot of another format version.
    VersionMismatch,
}

impl CacheError {
    /// A short description of the error.
    pub fn message(&self) -> (r: String)
        ensures
            *self is FileReadError ==> r@ == "failed to read cache file"@,
            *self is ParseError ==> r@ == "failed to parse cache data"@,
            *self is VersionMismatch ==> r@ == "cache version mismatch"@,
    {
        match self {
            CacheError::FileReadError => String::from_str("failed to read cache file"),
            CacheError::ParseError => String::from_str("failed to parse cache data"),
            CacheError::VersionMismatch => String::from_str("cache version mismatch"),
        }
    }
}

/// One cached value: the metadata and the unix second it was created at.
#[derive(Debug, PartialEq, Eq)]
pub struct CacheEntry {
    pub data: ITunesInfos,
    pub created_at: u64,
}

/// Mathematical image of a cache entry.
pub struct CacheEntryView {
    pub data: ITunesInfosView,
    pub created_at: u64,
}

impl View for CacheEntry {
    type V = CacheEntryView;

    open spec fn view(&self) -> CacheEntryView {
        CacheEntryView { data: self.data@, created_at: self.created_at }
    }
}

impl Clone for CacheEntry {
    fn clone(&self) -> (r: Self)
        ensures
            r@ == self@,
    {
        CacheEntry { data: self.data.clone(), created_at: self.created_at }
    }
}

/// The association list a cache holds, seen mathematically: key/entry pairs.
pub type EntriesView = Seq<(Seq<char>, CacheEntryView)>;

/// The image of an association list of entries.
pub open spec fn kv_view(s: Seq<(String, CacheEntry)>) -> EntriesView {
    s.map_values(|p: (String, CacheEntry)| (p.0@, p.1@))
}

/// No key occurs twice.
pub open spec fn unique_keys(s: EntriesView) -> bool {
    forall|i: int, j: int| 0 <= i < j < s.len() ==> (#[trigger] s[i]).0 != (#[trigger] s[j]).0
}

/// Whether an entry is still live at `now`: created no later than `now`
/// (a timestamp in the future counts as expired) and no older than
/// `max_age` seconds.
pub open spec fn entry_live(e: CacheEntryView, now: u64, max_age: u64) -> bool {
    e.created_at <= now && now - e.created_at <= max_age
}

/// The entries that survive an expiry pass at `now`.
pub open spec fn cleaned(s: EntriesView, now: u64, max_age: u64) -> EntriesView {
    s.filter(|p: (Seq<char>, CacheEntryView)| entry_live(p.1, now, max_age))
}

/// The first entry stored under `key`, if any.
pub open spec fn lookup(s: EntriesView, key: Seq<char>) -> Option<CacheEntryView>
    decreases s.len(),
{
    if s.len() == 0 {
        None
    } else if s[0].0 == key {
        Some(s[0].1)
    } else {
        lookup(s.drop_first(), key)
    }
}

/// The metadata stored under `key`, if any.
pub open spec fn lookup_infos(s: EntriesView, key: Seq<char>) -> Option<ITunesInfosView> {
    match lookup(s, key) {
        Some(e) => Some(e.data),
        None => None,
    }
}

/// The list with `key` bound to `e`: the first binding of `key` replaced,
/// or the pair appended when the key is new.
pub open spec fn set_entry(s: EntriesView, key: Seq<char>, e: CacheEntryView) -> EntriesView
    decreases s.len(),
{
    if s.len() == 0 {
        seq![(key, e)]
    } else if s[0].0 == key {
        seq![(key, e)] + s.drop_first()
    } else {
        seq![s[0]] + set_entry(s.drop_first(), key, e)
    }
}

/// The store after `set`: the binding installed, and an eager expiry pass
/// when the store has outgrown the high-water mark.
pub open spec fn set_result(
    s: EntriesView,
    key: Seq<char>,
    e: CacheEntryView,
    now: u64,
    max_age: u64,
) -> EntriesView {
    let t = set_entry(s, key, e);
    if t.len() > CACHE_HIGH_WATER {
        cleaned(t, now, max_age)
    } else {
        t
    }
}

/// The metadata cache.
#[derive(Debug)]
pub struct Cache {
    pub version: u64,
    pub data: Vec<(String, CacheEntry)>,
    pub max_age: u64,
    pub dirty: bool,
}

impl Cache {
    /// The store, seen mathematically.
    pub open spec fn entries(&self) -> EntriesView {
        kv_view(self.data@)
    }

    /// A well-formed cache binds each key at most once.
    pub open spec fn wf(&self) -> bool {
        unique_keys(self.entries())
    }

    /// A fresh cache: current version, empty store, the default
    /// time-to-live, and nothing to persist.
    pub fn new() -> (c: Cache)
        ensures
            c.wf(),
            c.version == CACHE_VERSION,
            c.entries() == Seq::<(Seq<char>, CacheEntryView)>::empty(),
            c.max_age == DEFAULT_MAX_AGE_SECS,
            !c.dirty,
    {
        let c = Cache {
            version: CACHE_VERSION,
            data: Vec::new(),
            max_age: DEFAULT_MAX_AGE_SECS,
            dirty: false,
        };
        proof {
            assert(c.entries() =~= Seq::<(Seq<char>, CacheEntryView)>::empty());
        }
        c
    }

    /// Purge every entry that is expired at `now`. A pass that removes
    /// anything marks the store dirty: its memory now differs from the
    /// last persisted snapshot. The version and the time-to-live are
    /// untouched.
    #[verifier::loop_isolation(false)]
    pub fn cleanup_expired(&mut self, now: u64)
        requires
            old(self).wf(),
        ensures
            final(self).wf(),
            final(self).entries() == cleaned(old(self).entries(), now, old(self).max_age),
            final(self).version == old(self).version,
            final(self).max_age == old(self).max_age,
            final(self).dirty == (old(self).dirty || final(self).entries() != old(
                self,
            ).entries()),
    {
        broadcast use Seq::lemma_filter_push;

        let ghost orig = self.entries();
        let ghost max_age = self.max_age;
        let mut kept: Vec<(String, CacheEntry)> = Vec::new();
        let mut i: usize = 0;
        while i < self.data.len()
            invariant
                i <= self.data.len(),
                kv_view(kept@) == cleaned(orig.subrange(0, i as int), now, max_age),
            decreases self.data.len() - i,
        {
            let live = {
                let e = &self.data[i].1;
                e.created_at <= now && now - e.created_at <= self.max_age
            };
            let ghost pre = orig.subrange(0, i as int);
            let ghost pv = orig[i as int];
            proof {
                assert(orig.subrange(0, i as int + 1) =~= pre.push(pv));
                assert(cleaned(pre.push(pv), now, max_age) == if entry_live(pv.1, now, max_age) {
                    cleaned(pre, now, max_age).push(pv)
                } else {
                    cleaned(pre, now, max_age)
                });
                assert(live == entry_live(pv.1, now, max_age));
            }
            if live {
                let key = self.data[i].0.clone();
                let entry = self.data[i].1.clone();
                kept.push((key, entry));
                proof {
                    assert(kv_view(kept@) =~= cleaned(pre, now, max_age).push(pv));
                }
            }
            i = i + 1;
        }
        proof {
            assert(orig.subrange(0, orig.len() as int) =~= orig);
        }
        if kept.len() != self.data.len() {
            self.dirty = true;
            proof {
                assert(kv_view(kept@).len() != orig.len());
            }
        } else {
            proof {
                lemma_cleaned_len_full(orig, now, max_age);
            }
        }
        self.data = kept;
        proof {
            lemma_cleaned_unique(orig, now, max_age);
        }
    }

    /// Look `key` up, after the expiry pass this read performs: the live
    /// entry's metadata when one is stored, absent otherwise. Never
    /// fetches; when the pass purged anything, the store is now dirty.
    pub fn get(&mut self, key: &str, now: u64) -> (r: Option<ITunesInfos>)
        requires
            old(self).wf(),
        ensures
            final(self).wf(),
            final(self).entries() == cleaned(old(self).entries(), now, old(self).max_age),
            final(self).version == old(self).version,
            final(self).max_age == old(self).max_age,
            final(self).dirty == (old(self).dirty || final(self).entries() != old(
                self,
            ).entries()),
            crate::structs::infos_opt_view(r) == lookup_infos(final(self).entries(), key@),
    {
        self.cleanup_expired(now);
        match find_index(&self.data, key) {
            Some(i) => {
                let infos = self.data[i].1.data.clone();
                proof {
                    lemma_lookup_match(self.entries(), key@, i as int);
                }
                Some(infos)
            },
            None => {
                proof {
                    lemma_lookup_absent(self.entries(), key@);
                }
                None
            },
        }
    }

    /// Bind `key` to `value`, stamped with `now`, and mark the store dirty.
    /// When the store has outgrown the high-water mark, run an eager expiry
    /// pass.
    pub fn set(&mut self, key: String, value: ITunesInfos, now: u64)
        requires
            old(self).wf(),
        ensures
            final(self).wf(),
            final(self).entries() == set_result(
                old(self).entries(),
                key@,
                CacheEntryView { data: value@, created_at: now },
                now,
                old(self).max_age,
            ),
            final(self).version == old(self).version,
            final(self).max_age == old(self).max_age,
            final(self).dirty,
    {
        let ghost orig = self.entries();
        let ghost ev = CacheEntryView { data: value@, created_at: now };
        let entry = CacheEntry { data: value, created_at: now };
        match find_index(&self.data, key.as_str()) {
            Some(i) => {
                proof {
                    lemma_set_at_index(orig, key@, ev, i as int);
                }
                let slot = vstd::std_specs::vec::vec_index_mut(&mut self.data, i);
                *slot = (key, entry);
                proof {
                    assert(self.entries() =~= orig.update(i as int, (key@, ev)));
                }
            },
            None => {
                proof {
                    lemma_set_append(orig, key@, ev);
                }
                self.data.push((key, entry));
                proof {
                    assert(self.entries() =~= orig.push((key@, ev)));
                }
            },
        }
        self.dirty = true;
        proof {
            let t = set_entry(orig, key@, ev);
            assert forall|a: int, b: int| 0 <= a < b < t.len() implies (#[trigger] t[a]).0 != (
            #[trigger] t[b]).0 by {
                if t == orig.push((key@, ev)) && b == orig.len() {
                    assert(t[a] == orig[a]);
                }
            }
        }
        if self.data.len() > CACHE_HIGH_WATER {
            self.cleanup_expired(now);
        }
    }

    /// Replace the store with a persisted snapshot.
    ///
    /// `contents` is the cache file's text, or `None` when there is no such
    /// file — which is a cold start, not an error. A text that is not a
    /// well-formed snapshot leaves the store as it was with `ParseError`;
    /// a snapshot of another format version leaves it as it was with
    /// `VersionMismatch`, which the caller treats as a cold start too.
    pub fn load_cache(&mut self, contents: Option<&str>) -> (r: Result<(), CacheError>)
        requires
            old(self).wf(),
        ensures
            final(self).wf(),
            final(self).version == old(self).version,
            final(self).max_age == old(self).max_age,
            final(self).dirty == old(self).dirty,
            contents is None ==> r is Ok && final(self).entries() == old(self).entries(),
            r is Err ==> final(self).entries() == old(self).entries(),
            !(r == Err::<(), CacheError>(CacheError::FileReadError)),
            contents matches Some(t) ==> (r is Ok ==> t@ == ser_doc(
                old(self).version,
                final(self).entries(),
            )),
            contents matches Some(t) ==> forall|v: u64, es: EntriesView|
                #[trigger] doc_at(t@, v, es) ==> (if v == old(self).version {
                    r is Ok && final(self).entries() == es
                } else {
                    r == Err::<(), CacheError>(CacheError::VersionMismatch)
                }),
            contents matches Some(t) ==> (r == Err::<(), CacheError>(CacheError::VersionMismatch)
                ==> exists|v: u64, es: EntriesView|
                #[trigger] doc_at(t@, v, es) && v != old(self).version),
            contents matches Some(t) ==> ((forall|v: u64, es: EntriesView| !#[trigger] doc_at(
                t@,
                v,
                es,
            )) ==> r == Err::<(), CacheError>(CacheError::ParseError)),
    {
        match contents {
            None => Ok(()),
            Some(text) => {
                let chars = str_chars(text);
                match parse_doc(&chars) {
                    Ok((ver, entries)) => {
                        proof {
                            assert(doc_at(text@, ver, kv_view(entries@)));
                        }
                        if ver == self.version {
                            self.data = entries;
                            Ok(())
                        } else {
                            Err(CacheError::VersionMismatch)
                        }
                    },
                    Err(()) => Err(CacheError::ParseError),
                }
            },
        }
    }

    /// Produce the text to persist, if there is anything to persist.
    ///
    /// When the store is clean this does nothing and returns `None`: no
    /// write happens. When it is dirty, expired entries are purged and the
    /// canonical document for the remaining entries is returned; the caller
    /// writes it out and reports success through [`Cache::mark_clean`], so
    /// that a failed write leaves the store dirty for a later retry.
    pub fn save_cache(&mut self, now: u64) -> (r: Option<String>)
        requires
            old(self).wf(),
        ensures
            final(self).wf(),
            final(self).version == old(self).version,
            final(self).max_age == old(self).max_age,
            final(self).dirty == old(self).dirty,
            !old(self).dirty ==> r is None && final(self).entries() == old(self).entries(),
            old(self).dirty ==> final(self).entries() == cleaned(
                old(self).entries(),
                now,
                old(self).max_age,
            ) && (r matches Some(text) && text@ == ser_doc(
                old(self).version,
                final(self).entries(),
            )),
    {
        if !self.dirty {
            return None;
        }
        self.cleanup_expired(now);
        let chars = serialize_cache(self.version, &self.data);
        Some(chars_to_string(&chars))
    }

    /// Produce the text to persist, if there is anything to persist: the
    /// explicit flush a caller runs on demand and on shutdown.
    pub fn flush(&mut self, now: u64) -> (r: Option<String>)
        requires
            old(self).wf(),
        ensures
            final(self).wf(),
            final(self).version == old(self).version,
            final(self).max_age == old(self).max_age,
            final(self).dirty == old(self).dirty,
            !old(self).dirty ==> r is None && final(self).entries() == old(self).entries(),
            old(self).dirty ==> final(self).entries() == cleaned(
                old(self).entries(),
                now,
                old(self).max_age,
            ) && (r matches Some(text) && text@ == ser_doc(
                old(self).version,
                final(self).entries(),
            )),
    {
        self.save_cache(now)
    }

    /// Record that the produced text reached storage: the store now matches
    /// its persisted snapshot.
    pub fn mark_clean(&mut self)
        ensures
            final(self).wf() == old(self).wf(),
            final(self).version == old(self).version,
            final(self).max_age == old(self).max_age,
            final(self).entries() == old(self).entries(),
            !final(self).dirty,
    {
        self.dirty = false;
    }
}

/// Flush and load fit together: the document a dirty flush produces is a
/// well-formed snapshot of exactly the live entries that were flushed, so
/// loading it into a fresh cache of the same version reproduces them.
pub proof fn lemma_flush_load_round_trip(
    version: u64,
    entries: EntriesView,
    now: u64,
    max_age: u64,
)
    requires
        unique_keys(entries),
    ensures
        doc_at(
            ser_doc(version, cleaned(entries, now, max_age)),
            version,
            cleaned(entries, now, max_age),
        ),
{
    lemma_cleaned_unique(entries, now, max_age);
}

/// The index of the first pair whose key matches, if any.
#[verifier::loop_isolation(false)]
pub(crate) fn find_index(data: &Vec<(String, CacheEntry)>, key: &str) -> (r: Option<usize>)
    ensures
        match r {
            Some(i) => i < data@.len() && kv_view(data@)[i as int].0 == key@ && (forall|j: int|
                0 <= j < i ==> (#[trigger] kv_view(data@)[j]).0 != key@),
            None => forall|j: int|
                0 <= j < data@.len() ==> (#[trigger] kv_view(data@)[j]).0 != key@,
        },
{
    let key_owned: String = key.to_owned();
    let mut i: usize = 0;
    while i < data.len()
        invariant
            i <= data.len(),
            forall|j: int| 0 <= j < i ==> (#[trigger] kv_view(data@)[j]).0 != key@,
        decreases data.len() - i,
    {
        if data[i].0 == key_owned {
            return Some(i);
        }
        i = i + 1;
    }
    None
}

/// Every pair kept by an expiry pass stands somewhere in the original list.
proof fn lemma_cleaned_subset(s: EntriesView, now: u64, max_age: u64)
    ensures
        forall|x: (Seq<char>, CacheEntryView)|
            #[trigger] cleaned(s, now, max_age).contains(x) ==> s.contains(x),
    decreases s.len(),
{
    reveal(Seq::filter);
    if s.len() > 0 {
        lemma_cleaned_subset(s.drop_last(), now, max_age);
        assert forall|x: (Seq<char>, CacheEntryView)|
            #[trigger] cleaned(s, now, max_age).contains(x) implies s.contains(x) by {
            let c = cleaned(s, now, max_age);
            let k = choose|k: int| 0 <= k < c.len() && c[k] == x;
            let cd = cleaned(s.drop_last(), now, max_age);
            if k < cd.len() {
                assert(cd.contains(x));
                let m = choose|m: int| 0 <= m < s.drop_last().len() && s.drop_last()[m] == x;
                assert(s[m] == x);
            } else {
                assert(x == s[s.len() - 1]);
            }
        }
    }
}

/// An expiry pass that drops nothing leaves the list exactly as it was.
proof fn lemma_cleaned_len_full(s: EntriesView, now: u64, max_age: u64)
    requires
        cleaned(s, now, max_age).len() == s.len(),
    ensures
        cleaned(s, now, max_age) == s,
    decreases s.len(),
{
    reveal(Seq::filter);
    if s.len() > 0 {
        let d = s.drop_last();
        let c = cleaned(s, now, max_age);
        let cd = cleaned(d, now, max_age);
        d.lemma_filter_len(|p: (Seq<char>, CacheEntryView)| entry_live(p.1, now, max_age));
        if entry_live(s.last().1, now, max_age) {
            assert(c == cd.push(s.last()));
            lemma_cleaned_len_full(d, now, max_age);
            assert(c =~= s);
        } else {
            assert(c == cd);
            assert(false);
        }
    } else {
        assert(cleaned(s, now, max_age) =~= s);
    }
}

/// An expiry pass keeps keys unique.
proof fn lemma_cleaned_unique(s: EntriesView, now: u64, max_age: u64)
    requires
        unique_keys(s),
    ensures
        unique_keys(cleaned(s, now, max_age)),
    decreases s.len(),
{
    reveal(Seq::filter);
    if s.len() > 0 {
        let d = s.drop_last();
        assert(unique_keys(d)) by {
            assert forall|i: int, j: int| 0 <= i < j < d.len() implies (#[trigger] d[i]).0 != (
            #[trigger] d[j]).0 by {
                assert(d[i] == s[i] && d[j] == s[j]);
            }
        }
        lemma_cleaned_unique(d, now, max_age);
        lemma_cleaned_subset(d, now, max_age);
        let c = cleaned(s, now, max_age);
        let cd = cleaned(d, now, max_age);
        assert forall|i: int, j: int| 0 <= i < j < c.len() implies (#[trigger] c[i]).0 != (
        #[trigger] c[j]).0 by {
            if j < cd.len() {
                assert(c[i] == cd[i] && c[j] == cd[j]);
            } else {
                assert(c[j] == s[s.len() - 1]);
                assert(cd.contains(cd[i]));
                let m = choose|m: int| 0 <= m < d.len() && d[m] == cd[i];
                assert(s[m] == cd[i]);
            }
        }
    }
}

/// Everything `set_entry` holds was in the list before, or is the new pair.
proof fn lemma_set_members(s: EntriesView, key: Seq<char>, e: CacheEntryView)
    ensures
        forall|p: (Seq<char>, CacheEntryView)|
            #[trigger] set_entry(s, key, e).contains(p) ==> s.contains(p) || p == (key, e),
    decreases s.len(),
{
    let t = set_entry(s, key, e);
    if s.len() == 0 {
        assert forall|p: (Seq<char>, CacheEntryView)| #[trigger] t.contains(p) implies s.contains(
            p,
        ) || p == (key, e) by {
            let k = choose|k: int| 0 <= k < t.len() && t[k] == p;
            assert(p == t[0]);
        }
    } else if s[0].0 == key {
        assert forall|p: (Seq<char>, CacheEntryView)| #[trigger] t.contains(p) implies s.contains(
            p,
        ) || p == (key, e) by {
            let k = choose|k: int| 0 <= k < t.len() && t[k] == p;
            if k > 0 {
                assert(p == s[k]);
            }
        }
    } else {
        lemma_set_members(s.drop_first(), key, e);
        assert forall|p: (Seq<char>, CacheEntryView)| #[trigger] t.contains(p) implies s.contains(
            p,
        ) || p == (key, e) by {
            let k = choose|k: int| 0 <= k < t.len() && t[k] == p;
            if k == 0 {
                assert(p == s[0]);
            } else {
                assert(set_entry(s.drop_first(), key, e).contains(p));
                if !(p == (key, e)) {
                    let m = choose|m: int|
                        0 <= m < s.drop_first().len() && s.drop_first()[m] == p;
                    assert(p == s[m + 1]);
                }
            }
        }
    }
}

/// `set_entry` keeps keys unique.
proof fn lemma_set_unique(s: EntriesView, key: Seq<char>, e: CacheEntryView)
    requires
        unique_keys(s),
    ensures
        unique_keys(set_entry(s, key, e)),
    decreases s.len(),
{
    let t = set_entry(s, key, e);
    if s.len() == 0 {
    } else if s[0].0 == key {
        assert forall|a: int, b: int| 0 <= a < b < t.len() implies (#[trigger] t[a]).0 != (
        #[trigger] t[b]).0 by {
            assert(t[b] == s[b]);
            if a > 0 {
                assert(t[a] == s[a]);
            }
        }
    } else {
        let d = s.drop_first();
        assert(unique_keys(d)) by {
            assert forall|a: int, b: int| 0 <= a < b < d.len() implies (#[trigger] d[a]).0 != (
            #[trigger] d[b]).0 by {
                assert(d[a] == s[a + 1] && d[b] == s[b + 1]);
            }
        }
        lemma_set_unique(d, key, e);
        lemma_set_members(d, key, e);
        let td = set_entry(d, key, e);
        assert forall|a: int, b: int| 0 <= a < b < t.len() implies (#[trigger] t[a]).0 != (
        #[trigger] t[b]).0 by {
            if a == 0 {
                assert(t[b] == td[b - 1]);
                assert(td.contains(td[b - 1]));
                if td[b - 1] == (key, e) {
                } else {
                    let m = choose|m: int| 0 <= m < d.len() && d[m] == td[b - 1];
                    assert(s[m + 1] == td[b - 1]);
                }
            } else {
                assert(t[a] == td[a - 1] && t[b] == td[b - 1]);
            }
        }
    }
}

/// `set_entry` binds the key to the new entry.
proof fn lemma_lookup_set(s: EntriesView, key: Seq<char>, e: CacheEntryView)
    ensures
        lookup(set_entry(s, key, e), key) == Some(e),
    decreases s.len(),
{
    let t = set_entry(s, key, e);
    if s.len() == 0 {
        assert(t[0] == (key, e));
    } else if s[0].0 == key {
        assert(t[0] == (key, e));
    } else {
        lemma_lookup_set(s.drop_first(), key, e);
        assert(t[0] == s[0]);
        assert(t.drop_first() =~= set_entry(s.drop_first(), key, e));
    }
}

/// An expiry pass keeps an entry exactly when it was there and is live.
proof fn lemma_lookup_cleaned(s: EntriesView, now: u64, max_age: u64, key: Seq<char>)
    requires
        unique_keys(s),
    ensures
        lookup(cleaned(s, now, max_age), key) == (match lookup(s, key) {
            Some(e) => if entry_live(e, now, max_age) {
                Some(e)
            } else {
                None
            },
            None => None,
        }),
    decreases s.len(),
{
    broadcast use Seq::filter_distributes_over_add;

    if s.len() > 0 {
        let d = s.drop_first();
        let single = seq![s[0]];
        assert(s =~= single + d);
        assert(cleaned(s, now, max_age) == cleaned(single, now, max_age) + cleaned(
            d,
            now,
            max_age,
        ));
        assert(cleaned(single, now, max_age) == if entry_live(s[0].1, now, max_age) {
            single
        } else {
            Seq::<(Seq<char>, CacheEntryView)>::empty()
        }) by {
            reveal_with_fuel(Seq::filter, 2);
            assert(single.drop_last() =~= Seq::<(Seq<char>, CacheEntryView)>::empty());
        }
        assert(unique_keys(d)) by {
            assert forall|a: int, b: int| 0 <= a < b < d.len() implies (#[trigger] d[a]).0 != (
            #[trigger] d[b]).0 by {
                assert(d[a] == s[a + 1] && d[b] == s[b + 1]);
            }
        }
        lemma_lookup_cleaned(d, now, max_age, key);
        if s[0].0 == key {
            if entry_live(s[0].1, now, max_age) {
                assert((single + cleaned(d, now, max_age))[0] == s[0]);
            } else {
                lemma_cleaned_subset(d, now, max_age);
                let cd = cleaned(d, now, max_age);
                assert forall|j: int| 0 <= j < cd.len() implies (#[trigger] cd[j]).0 != key by {
                    assert(cd.contains(cd[j]));
                    let m = choose|m: int| 0 <= m < d.len() && d[m] == cd[j];
                    assert(s[m + 1] == cd[j]);
                }
                lemma_lookup_absent(cd, key);
            }
        } else {
            if entry_live(s[0].1, now, max_age) {
                let c = single + cleaned(d, now, max_age);
                assert(c[0] == s[0]);
                assert(c.drop_first() =~= cleaned(d, now, max_age));
            }
        }
    }
}

/// Time-to-live, over the cache's model. Binding a key stamps it with the
/// insertion time: read at that same instant, the key yields exactly the
/// value just stored; read after more than `max_age` seconds have passed,
/// the entry has expired and the key yields nothing.
pub proof fn lemma_cache_ttl(
    s: EntriesView,
    key: Seq<char>,
    value: ITunesInfosView,
    now: u64,
    later: u64,
    max_age: u64,
)
    requires
        unique_keys(s),
    ensures
        lookup_infos(
            cleaned(
                set_entry(s, key, CacheEntryView { data: value, created_at: now }, ),
                now,
                max_age,
            ),
            key,
        ) == Some(value),
        later > now + max_age ==> lookup_infos(
            cleaned(
                set_entry(s, key, CacheEntryView { data: value, created_at: now }, ),
                later,
                max_age,
            ),
            key,
        ) is None,
{
    let e = CacheEntryView { data: value, created_at: now };
    let t = set_entry(s, key, e);
    lemma_set_unique(s, key, e);
    lemma_lookup_set(s, key, e);
    lemma_lookup_cleaned(t, now, max_age, key);
    lemma_lookup_cleaned(t, later, max_age, key);
}

/// `lookup` returns the entry at the first index whose key matches.
proof fn lemma_lookup_match(s: EntriesView, key: Seq<char>, i: int)
    requires
        0 <= i < s.len(),
        s[i].0 == key,
        forall|j: int| 0 <= j < i ==> (#[trigger] s[j]).0 != key,
    ensures
        lookup(s, key) == Some(s[i].1),
    decreases i,
{
    if i > 0 {
        lemma_lookup_match(s.drop_first(), key, i - 1);
    }
}

/// `lookup` misses exactly when no key matches.
proof fn lemma_lookup_absent(s: EntriesView, key: Seq<char>)
    requires
        forall|j: int| 0 <= j < s.len() ==> (#[trigger] s[j]).0 != key,
    ensures
        lookup(s, key) is None,
    decreases s.len(),
{
    if s.len() > 0 {
        lemma_lookup_absent(s.drop_first(), key);
    }
}

/// When the key is bound at index `i` and nowhere earlier, `set_entry`
/// replaces exactly that slot.
proof fn lemma_set_at_index(s: EntriesView, key: Seq<char>, e: CacheEntryView, i: int)
    requires
        0 <= i < s.len(),
        s[i].0 == key,
        forall|j: int| 0 <= j < i ==> (#[trigger] s[j]).0 != key,
    ensures
        set_entry(s, key, e) == s.update(i, (key, e)),
    decreases i,
{
    if i == 0 {
        assert(set_entry(s, key, e) =~= s.update(0, (key, e)));
    } else {
        lemma_set_at_index(s.drop_first(), key, e, i - 1);
        assert(set_entry(s, key, e) =~= s.update(i, (key, e)));
    }
}

/// When the key is bound nowhere, `set_entry` appends the new pair.
proof fn lemma_set_append(s: EntriesView, key: Seq<char>, e: CacheEntryView)
    requires
        forall|j: int| 0 <= j < s.len() ==> (#[trigger] s[j]).0 != key,
    ensures
        set_entry(s, key, e) == s.push((key, e)),
    decreases s.len(),
{
    if s.len() == 0 {
        assert(set_entry(s, key, e) =~= s.push((key, e)));
    } else {
        lemma_set_append(s.drop_first(), key, e);
        assert(set_entry(s, key, e) =~= s.push((key, e)));
    }
}

} // verus!
