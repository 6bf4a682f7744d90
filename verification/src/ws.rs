//! What the server does for each client request: the decisions of the
//! WebSocket front end, over the library, the playlists, the playback
//! registry and the set of songs this connection started.

use std::collections::HashSet;
use vstd::prelude::*;

use crate::domain::{Playlist, PlaylistId, Song, SongId};
use crate::library::{
    ids_in_years, ids_with_title, lists_songs, songs_for, title_has, year_within, Library,
};
use crate::persistent::{
    id_vector_get, id_vector_items, id_vector_len, id_vector_new, id_vector_push_back, lists_entries,
    playlist_table,
    song_vector_get, song_vector_items, song_vector_len, table_get, table_values,
};
use crate::playback::Playback;
use crate::playlists::ops::{
    self, filter_songs, with_song_added, with_song_removed, first_with_id, found_songs, keys_of, marked, answers, name_accepted,
    sort_by, stable_sort_of, with_songs,
};
use crate::playlists::state::{PlaylistModel, State};
use crate::protocol::{ClientMsg, ErrorCode, SearchBy, SearchValue, ServerEvent, SortBy};
use crate::text::{chars_of, contains, decimal, lowercase, push_decimal, to_lowercase, trim, trimmed};

verus! {

broadcast use vstd::std_specs::hash::group_hash_axioms;

/// What handling a request produced: the event to broadcast, if any, and
/// whether the state changed in a way that must be saved.
#[derive(Debug)]
pub struct Response {
    pub event: Option<ServerEvent>,
    pub save: bool,
}

/// The URL a song is streamed from: `/stream/` and the id in decimal.
fn stream_url(id: SongId) -> (r: String)
    ensures
        r@ == "/stream/"@ + decimal(id as nat),
{
    let mut r = String::from_str("/stream/");
    push_decimal(&mut r, id);
    r
}

/// The message for an unknown song: `song <id> not found`.
fn song_not_found_msg(id: SongId) -> (r: String)
    ensures
        r@ == "song "@ + decimal(id as nat) + " not found"@,
{
    let mut r = String::from_str("song ");
    push_decimal(&mut r, id);
    r.append(" not found");
    r
}

/// The message for a playlist name already in use.
fn name_in_use_msg(trimmed: &str) -> (r: String)
    ensures
        r@ == "Ya existe una playlist con el nombre '"@ + trimmed@ + "'"@,
{
    let mut r = String::from_str("Ya existe una playlist con el nombre '");
    r.append(trimmed);
    r.append("'");
    r
}

/// `songs` lists every stored song once.
pub open spec fn lists_library(songs: Seq<Song>, lib: Library) -> bool {
    exists|ks: Seq<SongId>| lists_songs(songs, ks, lib.songs(), lib.songs().dom())
}

/// `v` lists every playlist of `st` once.
pub open spec fn lists_playlists(v: Seq<Playlist>, st: State) -> bool {
    exists|ks: Seq<PlaylistId>| lists_entries(v, ks, playlist_table(st.playlists))
}

/// `songs` is what a search by `by` for `value` gives.
pub open spec fn search_matches(lib: Library, by: SearchBy, value: SearchValue, songs: Seq<Song>) -> bool {
    match by {
        SearchBy::Title => exists|ks: Seq<SongId>|
            lists_songs(songs, ks, lib.songs(), ids_with_title(lib.songs(), lowercase(value.text@))),
        SearchBy::Genre => songs == songs_for(
            if lib.genre_index().contains_key(value.text@) {
                lib.genre_index()[value.text@]
            } else {
                Seq::empty()
            },
            lib.songs(),
        ),
        SearchBy::YearRange => if value.years@.len() == 2 {
            exists|ks: Seq<SongId>|
                lists_songs(
                    songs,
                    ks,
                    lib.songs(),
                    ids_in_years(lib.songs(), value.years@[0], value.years@[1]),
                )
        } else {
            songs.len() == 0
        },
    }
}

/// Runs a library search.
pub fn search(lib: &Library, by: SearchBy, value: &SearchValue) -> (r: Vec<Song>)
    requires
        lib.wf(),
    ensures
        search_matches(*lib, by, *value, r@),
{
    match by {
        SearchBy::Title => lib.search_by_title(value.text.as_str()),
        SearchBy::Genre => lib.search_by_genre(value.text.as_str()),
        SearchBy::YearRange => {
            if value.years.len() == 2 {
                lib.search_by_year_range(value.years[0], value.years[1])
            } else {
                Vec::new()
            }
        },
    }
}

/// A playlist filter by `by` for `value` keeps `s`.
pub open spec fn filter_keeps(by: SearchBy, value: SearchValue, s: Song) -> bool {
    match by {
        SearchBy::Title => title_has(s, lowercase(value.text@)),
        SearchBy::Genre => s.genre@ == value.text@,
        SearchBy::YearRange => year_within(s, value.years@[0], value.years@[1]),
    }
}

/// The songs of `xs` that the filter keeps, in order.
pub open spec fn kept_by(xs: Seq<Song>, by: SearchBy, value: SearchValue) -> Seq<Song>
    decreases xs.len(),
{
    if xs.len() == 0 {
        Seq::empty()
    } else if filter_keeps(by, value, xs.last()) {
        kept_by(xs.drop_last(), by, value).push(xs.last())
    } else {
        kept_by(xs.drop_last(), by, value)
    }
}

/// `songs` is what filtering playlist `pid` by `by` for `value` gives: the
/// playlist's stored songs, in playlist order, that the filter keeps;
/// nothing for an unknown playlist or a year range that is not a pair.
pub open spec fn filter_matches(
    lib: Library,
    st: State,
    pid: PlaylistId,
    by: SearchBy,
    value: SearchValue,
    songs: Seq<Song>,
) -> bool {
    if !st@.0.contains_key(pid) || (by == SearchBy::YearRange && value.years@.len() != 2) {
        songs.len() == 0
    } else {
        songs == kept_by(songs_for(st@.0[pid].2, lib.songs()), by, value)
    }
}

/// Looking up by id in a listing of stored songs finds the stored song.
pub proof fn lemma_first_in_listing(l: Seq<Song>, ks: Seq<SongId>, songs: Map<SongId, Song>, id: SongId)
    requires
        ks.len() == l.len(),
        ks.no_duplicates(),
        forall|i: int| 0 <= i < ks.len() ==> songs.contains_key(ks[i]) && (#[trigger] l[i]) == songs[ks[i]],
        forall|k: SongId| #[trigger] songs.contains_key(k) ==> songs[k].id == k,
    ensures
        first_with_id(l, id) == if ks.contains(id) {
            Some(songs[id])
        } else {
            None::<Song>
        },
    decreases l.len(),
{
    if l.len() > 0 {
        let ks1 = ks.drop_first();
        let l1 = l.drop_first();
        assert forall|i: int| 0 <= i < ks1.len() implies #[trigger] songs.contains_key(ks1[i]) by {
            assert(ks1[i] == ks[i + 1]);
            assert(l[i + 1] == songs[ks[i + 1]]);
        }
        assert forall|i: int| 0 <= i < ks1.len() implies #[trigger] l1[i] == songs[ks1[i]] by {
            assert(l1[i] == l[i + 1] && ks1[i] == ks[i + 1]);
            assert(l[i + 1] == songs[ks[i + 1]]);
        }
        assert(ks1.no_duplicates()) by {
            assert forall|a: int, b: int| 0 <= a < ks1.len() && 0 <= b < ks1.len() && a != b implies ks1[a]
                != ks1[b] by {
                assert(ks1[a] == ks[a + 1] && ks1[b] == ks[b + 1]);
            }
        }
        lemma_first_in_listing(l1, ks1, songs, id);
        assert(l[0] == songs[ks[0]]);
        if ks[0] != id {
            assert(ks.contains(id) == ks1.contains(id)) by {
                if ks.contains(id) {
                    let i = choose|i: int| 0 <= i < ks.len() && ks[i] == id;
                    assert(ks1[i - 1] == id);
                }
                if ks1.contains(id) {
                    let i = choose|i: int| 0 <= i < ks1.len() && ks1[i] == id;
                    assert(ks[i + 1] == id);
                }
            }
        } else {
            assert(ks.contains(id));
        }
    }
}

/// Looking up playlist ids in a listing of the library gives the stored songs.
pub proof fn lemma_found_in_listing(ids: Seq<SongId>, l: Seq<Song>, ks: Seq<SongId>, songs: Map<SongId, Song>)
    requires
        lists_songs(l, ks, songs, songs.dom()),
        forall|k: SongId| #[trigger] songs.contains_key(k) ==> songs[k].id == k,
    ensures
        found_songs(ids, l) == songs_for(ids, songs),
    decreases ids.len(),
{
    if ids.len() > 0 {
        lemma_found_in_listing(ids.drop_last(), l, ks, songs);
        lemma_first_in_listing(l, ks, songs, ids.last());
        assert(ks.contains(ids.last()) == songs.contains_key(ids.last())) by {
            assert(ks.to_set().contains(ids.last()) == songs.dom().contains(ids.last()));
        }
    }
}

/// What a predicate that always answers `filter_keeps` keeps.
pub proof fn lemma_marked_kept<F: Fn(&Song) -> bool>(
    pred: F,
    xs: Seq<Song>,
    keep: Seq<bool>,
    by: SearchBy,
    value: SearchValue,
)
    requires
        answers(pred, xs, keep),
        forall|s: Song, b: bool| call_ensures(pred, (&s,), b) ==> b == filter_keeps(by, value, s),
    ensures
        marked(xs, keep) == kept_by(xs, by, value),
    decreases xs.len(),
{
    if xs.len() > 0 {
        let xs1 = xs.drop_last();
        let k1 = keep.drop_last();
        assert forall|i: int| 0 <= i < xs1.len() implies call_ensures(pred, (&xs1[i],), #[trigger] k1[i]) by {
            assert(xs1[i] == xs[i] && k1[i] == keep[i]);
        }
        lemma_marked_kept(pred, xs1, k1, by, value);
        assert(call_ensures(pred, (&xs[xs.len() - 1],), keep[xs.len() - 1]));
    }
}

/// Filters the songs of playlist `pid`.
pub fn playlist_filter(
    lib: &Library,
    st: &State,
    pid: PlaylistId,
    by: SearchBy,
    value: &SearchValue,
) -> (r: Vec<Song>)
    requires
        lib.wf(),
    ensures
        filter_matches(*lib, *st, pid, by, *value, r@),
{
    let library = lib.list();
    let ghost lks = choose|ks: Seq<SongId>| lists_songs(library@, ks, lib.songs(), lib.songs().dom());
    let p = match table_get(&st.playlists, pid) {
        Some(p) => p,
        None => {
            return Vec::new();
        },
    };
    if by == SearchBy::YearRange && value.years.len() != 2 {
        return Vec::new();
    }
    proof {
        lib.lemma_ids_match();
        lemma_found_in_listing(id_vector_items(p.songs), library@, lks, lib.songs());
    }
    let ghost found = found_songs(id_vector_items(p.songs), library@);
    let kept = match by {
        SearchBy::Title => {
            let q = chars_of(to_lowercase(value.text.as_str()).as_str());
            let pred = |s: &Song| -> (b: bool)
                ensures
                    b == title_has(*s, q@),
                {
                    let t = to_lowercase(s.title.as_str());
                    contains(&chars_of(t.as_str()), &q)
                };
            let r = filter_songs(p, library.as_slice(), pred);
            proof {
                let keep = choose|keep: Seq<bool>|
                    answers(pred, found, keep) && song_vector_items(r) == #[trigger] marked(found, keep);
                lemma_marked_kept(pred, found, keep, by, *value);
            }
            r
        },
        SearchBy::Genre => {
            let g = &value.text;
            let pred = |s: &Song| -> (b: bool)
                ensures
                    b == (s.genre@ == g@),
                { s.genre == *g };
            let r = filter_songs(p, library.as_slice(), pred);
            proof {
                let keep = choose|keep: Seq<bool>|
                    answers(pred, found, keep) && song_vector_items(r) == #[trigger] marked(found, keep);
                lemma_marked_kept(pred, found, keep, by, *value);
            }
            r
        },
        SearchBy::YearRange => {
            let from = value.years[0];
            let to = value.years[1];
            let pred = |s: &Song| -> (b: bool)
                ensures
                    b == year_within(*s, from, to),
                { s.year >= from && s.year <= to };
            let r = filter_songs(p, library.as_slice(), pred);
            proof {
                let keep = choose|keep: Seq<bool>|
                    answers(pred, found, keep) && song_vector_items(r) == #[trigger] marked(found, keep);
                lemma_marked_kept(pred, found, keep, by, *value);
            }
            r
        },
    };
    let n = song_vector_len(&kept);
    let mut out: Vec<Song> = Vec::new();
    let mut i: usize = 0;
    while i < n
        invariant
            n == song_vector_items(kept).len(),
            i <= n,
            out@ == song_vector_items(kept).take(i as int),
        decreases n - i,
    {
        match song_vector_get(&kept, i) {
            Some(s) => {
                out.push(s.clone());
            },
            None => {},
        }
        proof {
            assert(song_vector_items(kept).take(i + 1) =~= song_vector_items(kept).take(i as int).push(
                song_vector_items(kept)[i as int],
            ));
        }
        i = i + 1;
    }
    proof {
        assert(song_vector_items(kept).take(n as int) =~= song_vector_items(kept));
    }
    out
}

/// The titles of `xs`.
pub open spec fn titles(xs: Seq<Song>) -> Seq<String> {
    xs.map_values(|s: Song| s.title)
}

/// The years of `xs`.
pub open spec fn years(xs: Seq<Song>) -> Seq<u16> {
    xs.map_values(|s: Song| s.year)
}

/// The durations of `xs`.
pub open spec fn durations(xs: Seq<Song>) -> Seq<u32> {
    xs.map_values(|s: Song| s.duration_secs)
}

/// The ids of `xs`.
pub open spec fn song_ids(xs: Seq<Song>) -> Seq<SongId> {
    xs.map_values(|s: Song| s.id)
}

/// `ids` are the ids of `xs` sorted stably by the key `by` names.
pub open spec fn sorted_ids(by: SortBy, xs: Seq<Song>, ids: Seq<SongId>) -> bool {
    match by {
        SortBy::Title => exists|ys: Seq<Song>|
            #[trigger] stable_sort_of(xs, titles(xs), ys) && ids == song_ids(ys),
        SortBy::Year => exists|ys: Seq<Song>|
            #[trigger] stable_sort_of(xs, years(xs), ys) && ids == song_ids(ys),
        SortBy::Duration => exists|ys: Seq<Song>|
            #[trigger] stable_sort_of(xs, durations(xs), ys) && ids == song_ids(ys),
    }
}

/// The ids of `ids` that have no song in `songs`, in order.
pub open spec fn missing_ids(ids: Seq<SongId>, songs: Map<SongId, Song>) -> Seq<SongId>
    decreases ids.len(),
{
    if ids.len() == 0 {
        Seq::empty()
    } else if songs.contains_key(ids.last()) {
        missing_ids(ids.drop_last(), songs)
    } else {
        missing_ids(ids.drop_last(), songs).push(ids.last())
    }
}

/// `pi` picks each position below `n` exactly once.
pub open spec fn reindexes(pi: Seq<int>, n: int) -> bool {
    &&& pi.len() == n
    &&& pi.no_duplicates()
    &&& forall|t: int| 0 <= t < n ==> 0 <= #[trigger] pi[t] < n
}

/// `new` holds the ids of `old`, each exactly once, in some order.
pub open spec fn rearranges(new: Seq<SongId>, old: Seq<SongId>) -> bool {
    exists|pi: Seq<int>|
        #[trigger] reindexes(pi, old.len() as int) && new.len() == old.len() && forall|t: int|
            0 <= t < new.len() ==> #[trigger] new[t] == old[pi[t]]
}

/// The positions of `ids` whose id has a song in `songs` (for `has`) or
/// has none (for `!has`), in increasing order.
pub open spec fn positions(ids: Seq<SongId>, songs: Map<SongId, Song>, has: bool) -> Seq<int>
    decreases ids.len(),
{
    if ids.len() == 0 {
        Seq::empty()
    } else if songs.contains_key(ids.last()) == has {
        positions(ids.drop_last(), songs, has).push(ids.len() - 1)
    } else {
        positions(ids.drop_last(), songs, has)
    }
}

/// Where, in `ids`, the songs that `songs_for` finds and the ids that
/// `missing_ids` keeps come from.
pub proof fn lemma_positions(ids: Seq<SongId>, songs: Map<SongId, Song>)
    ensures
        ({
            let fp = positions(ids, songs, true);
            let mp = positions(ids, songs, false);
            &&& fp.len() + mp.len() == ids.len()
            &&& fp.len() == songs_for(ids, songs).len()
            &&& mp.len() == missing_ids(ids, songs).len()
            &&& forall|j: int|
                0 <= j < fp.len() ==> 0 <= #[trigger] fp[j] < ids.len() && songs.contains_key(ids[fp[j]])
                    && songs_for(ids, songs)[j] == songs[ids[fp[j]]]
            &&& forall|j: int|
                0 <= j < mp.len() ==> 0 <= #[trigger] mp[j] < ids.len() && !songs.contains_key(ids[mp[j]])
                    && missing_ids(ids, songs)[j] == ids[mp[j]]
            &&& forall|a: int, b: int| 0 <= a < b < fp.len() ==> #[trigger] fp[a] < #[trigger] fp[b]
            &&& forall|a: int, b: int| 0 <= a < b < mp.len() ==> #[trigger] mp[a] < #[trigger] mp[b]
        }),
    decreases ids.len(),
{
    if ids.len() > 0 {
        let init = ids.drop_last();
        lemma_positions(init, songs);
        assert forall|i: int| 0 <= i < init.len() implies init[i] == ids[i] by {}
    }
}

/// Sorting the found songs and then appending the ids that have no song
/// only rearranges the playlist.
pub proof fn lemma_sorted_then_missing(
    old: Seq<SongId>,
    songs: Map<SongId, Song>,
    ys: Seq<Song>,
    pi0: Seq<usize>,
)
    requires
        forall|k: SongId| #[trigger] songs.contains_key(k) ==> songs[k].id == k,
        ops::is_arrangement(pi0, songs_for(old, songs).len() as int),
        ys.len() == songs_for(old, songs).len(),
        forall|t: int| 0 <= t < ys.len() ==> #[trigger] ys[t] == songs_for(old, songs)[pi0[t] as int],
    ensures
        rearranges(song_ids(ys) + missing_ids(old, songs), old),
{
    lemma_positions(old, songs);
    let fp = positions(old, songs, true);
    let mp = positions(old, songs, false);
    let found = songs_for(old, songs);
    let nf = fp.len() as int;
    let new = song_ids(ys) + missing_ids(old, songs);
    let pi = Seq::new(old.len(), |t: int| if t < nf { fp[pi0[t] as int] } else { mp[t - nf] });
    assert forall|t: int| 0 <= t < new.len() implies #[trigger] new[t] == old[pi[t]] by {
        if t < nf {
            let j = pi0[t] as int;
            assert(0 <= j < nf);
            assert(found[j] == songs[old[fp[j]]]);
            assert(songs.contains_key(old[fp[j]]));
            assert(new[t] == ys[t].id);
        } else {
            assert(mp[t - nf] == mp[t - nf]);
        }
    }
    assert forall|t: int| 0 <= t < old.len() implies 0 <= #[trigger] pi[t] < old.len() by {
        if t < nf {
            let j = pi0[t] as int;
            assert(fp[j] == fp[j]);
        } else {
            assert(mp[t - nf] == mp[t - nf]);
        }
    }
    assert forall|a: int, b: int| 0 <= a < old.len() && 0 <= b < old.len() && a != b implies pi[a]
        != pi[b] by {
        if a < nf && b < nf {
            let ja = pi0[a] as int;
            let jb = pi0[b] as int;
            assert(pi0[a] != pi0[b]);
            if ja < jb {
                assert(fp[ja] < fp[jb]);
            } else {
                assert(fp[jb] < fp[ja]);
            }
        } else if a >= nf && b >= nf {
            if a < b {
                assert(mp[a - nf] < mp[b - nf]);
            } else {
                assert(mp[b - nf] < mp[a - nf]);
            }
        } else if a < nf {
            let ja = pi0[a] as int;
            assert(songs.contains_key(old[fp[ja]]));
            assert(!songs.contains_key(old[mp[b - nf]]));
        } else {
            let jb = pi0[b] as int;
            assert(songs.contains_key(old[fp[jb]]));
            assert(!songs.contains_key(old[mp[a - nf]]));
        }
    }
    assert(reindexes(pi, old.len() as int));
}

/// `r` is what sorting playlist `pid` by `by` gives: `None` for an unknown
/// playlist, else the state whose playlist `pid` lists the ids of its
/// stored songs sorted stably by that key, then the ids that have no song
/// in the library, in their order. The playlist keeps every id it had.
pub open spec fn sort_matches(lib: Library, st: State, pid: PlaylistId, by: SortBy, r: Option<State>) -> bool {
    if !st@.0.contains_key(pid) {
        r is None
    } else {
        &&& exists|ids: Seq<SongId>|
            #[trigger] sorted_ids(by, songs_for(st@.0[pid].2, lib.songs()), ids) && (r matches Some(n)
                && n@ == (
                st@.0.insert(
                    pid,
                    with_songs(st@.0[pid], ids + missing_ids(st@.0[pid].2, lib.songs())),
                ),
                st@.1,
            ))
        &&& r matches Some(n) && rearranges(n@.0[pid].2, st@.0[pid].2)
    }
}

/// The ids of the songs of `v`, in order.
fn ids_of(v: &im::Vector<Song>) -> (r: im::Vector<SongId>)
    ensures
        id_vector_items(r) == song_ids(song_vector_items(*v)),
{
    let n = song_vector_len(v);
    let mut r = id_vector_new();
    let mut i: usize = 0;
    while i < n
        invariant
            n == song_vector_items(*v).len(),
            i <= n,
            id_vector_items(r) == song_vector_items(*v).take(i as int).map_values(|s: Song| s.id),
        decreases n - i,
    {
        match song_vector_get(v, i) {
            Some(s) => {
                id_vector_push_back(&mut r, s.id);
            },
            None => {},
        }
        proof {
            assert(song_vector_items(*v).take(i + 1).map_values(|s: Song| s.id) =~= song_vector_items(
                *v,
            ).take(i as int).map_values(|s: Song| s.id).push(song_vector_items(*v)[i as int].id));
        }
        i = i + 1;
    }
    proof {
        assert(song_vector_items(*v).take(n as int) =~= song_vector_items(*v));
    }
    r
}

/// Sorts playlist `pid` by `by`; `None` when there is no such playlist.
pub fn playlist_sort(lib: &Library, st: &State, pid: PlaylistId, by: SortBy) -> (r: Option<State>)
    requires
        lib.wf(),
    ensures
        sort_matches(*lib, *st, pid, by, r),
{
    let library = lib.list();
    let ghost lks = choose|ks: Seq<SongId>| lists_songs(library@, ks, lib.songs(), lib.songs().dom());
    let p = match table_get(&st.playlists, pid) {
        Some(p) => p,
        None => {
            return None;
        },
    };
    proof {
        lib.lemma_ids_match();
        lemma_found_in_listing(id_vector_items(p.songs), library@, lks, lib.songs());
    }
    let ghost found = found_songs(id_vector_items(p.songs), library@);
    let ghost old_ids = id_vector_items(p.songs);
    let sorted = match by {
        SortBy::Title => {
            let key = |s: &Song| -> (k: String)
                ensures
                    k == s.title,
                { s.title.clone() };
            let r = sort_by(p, library.as_slice(), key);
            proof {
                let ks = choose|ks: Seq<String>|
                    keys_of(key, found, ks) && #[trigger] stable_sort_of(found, ks, song_vector_items(r));
                assert(ks =~= titles(found));
                assert(stable_sort_of(found, titles(found), song_vector_items(r)));
                let pi0 = choose|pi0: Seq<usize>|
                    #![trigger ops::is_arrangement(pi0, found.len() as int)]
                    ops::is_arrangement(pi0, found.len() as int) && ops::sorts_stably(ks, pi0)
                        && song_vector_items(r).len() == found.len() && forall|t: int|
                        0 <= t < song_vector_items(r).len() ==> #[trigger] song_vector_items(r)[t]
                            == found[pi0[t] as int];
                lemma_sorted_then_missing(old_ids, lib.songs(), song_vector_items(r), pi0);
            }
            r
        },
        SortBy::Year => {
            let key = |s: &Song| -> (k: u16)
                ensures
                    k == s.year,
                { s.year };
            let r = sort_by(p, library.as_slice(), key);
            proof {
                let ks = choose|ks: Seq<u16>|
                    keys_of(key, found, ks) && #[trigger] stable_sort_of(found, ks, song_vector_items(r));
                assert(ks =~= years(found));
                assert(stable_sort_of(found, years(found), song_vector_items(r)));
                let pi0 = choose|pi0: Seq<usize>|
                    #![trigger ops::is_arrangement(pi0, found.len() as int)]
                    ops::is_arrangement(pi0, found.len() as int) && ops::sorts_stably(ks, pi0)
                        && song_vector_items(r).len() == found.len() && forall|t: int|
                        0 <= t < song_vector_items(r).len() ==> #[trigger] song_vector_items(r)[t]
                            == found[pi0[t] as int];
                lemma_sorted_then_missing(old_ids, lib.songs(), song_vector_items(r), pi0);
            }
            r
        },
        SortBy::Duration => {
            let key = |s: &Song| -> (k: u32)
                ensures
                    k == s.duration_secs,
                { s.duration_secs };
            let r = sort_by(p, library.as_slice(), key);
            proof {
                let ks = choose|ks: Seq<u32>|
                    keys_of(key, found, ks) && #[trigger] stable_sort_of(found, ks, song_vector_items(r));
                assert(ks =~= durations(found));
                assert(stable_sort_of(found, durations(found), song_vector_items(r)));
                let pi0 = choose|pi0: Seq<usize>|
                    #![trigger ops::is_arrangement(pi0, found.len() as int)]
                    ops::is_arrangement(pi0, found.len() as int) && ops::sorts_stably(ks, pi0)
                        && song_vector_items(r).len() == found.len() && forall|t: int|
                        0 <= t < song_vector_items(r).len() ==> #[trigger] song_vector_items(r)[t]
                            == found[pi0[t] as int];
                lemma_sorted_then_missing(old_ids, lib.songs(), song_vector_items(r), pi0);
            }
            r
        },
    };
    let mut ids = ids_of(&sorted);
    let ghost sorted_part = id_vector_items(ids);
    let n = id_vector_len(&p.songs);
    let mut i: usize = 0;
    proof {
        assert(old_ids.take(0) =~= Seq::<SongId>::empty());
        assert(sorted_part + missing_ids(old_ids.take(0), lib.songs()) =~= sorted_part);
    }
    while i < n
        invariant
            n == old_ids.len(),
            old_ids == id_vector_items(p.songs),
            i <= n,
            id_vector_items(ids) == sorted_part + missing_ids(old_ids.take(i as int), lib.songs()),
        decreases n - i,
    {
        proof {
            assert(old_ids.take(i + 1).drop_last() =~= old_ids.take(i as int));
        }
        match id_vector_get(&p.songs, i) {
            Some(x) => {
                if lib.get(x).is_none() {
                    id_vector_push_back(&mut ids, x);
                }
            },
            None => {},
        }
        i = i + 1;
    }
    proof {
        assert(old_ids.take(n as int) =~= old_ids);
    }
    let next = ops::reorder(st, pid, ids);
    proof {
        assert(st@.0[pid].2 == id_vector_items(p.songs));
        assert(found == songs_for(st@.0[pid].2, lib.songs()));
        assert(sorted_ids(by, songs_for(st@.0[pid].2, lib.songs()), sorted_part));
        assert(next@.0[pid].2 == sorted_part + missing_ids(old_ids, lib.songs()));
    }
    Some(next)
}

/// `e` is a snapshot of every playlist of `st`.
pub open spec fn shows_playlists(e: Option<ServerEvent>, st: State) -> bool {
    e matches Some(ServerEvent::PlaylistSnapshot { playlists }) && lists_playlists(playlists@, st)
}

/// The message a refused playlist name is answered with.
pub open spec fn refusal_msg(name: Seq<char>) -> Seq<char> {
    if trimmed(name).len() == 0 {
        "El nombre no puede estar vac\u{ed}o"@
    } else {
        "Ya existe una playlist con el nombre '"@ + trimmed(name) + "'"@
    }
}

/// What handling `cmd` does: `pl0`, `pb0` and `own0` are the playlists,
/// the playing set and this connection's own playing set before, `pl1`,
/// `pb1` and `own1` after, and `r` is the response.
pub open spec fn handled(
    cmd: ClientMsg,
    lib: Library,
    pl0: State,
    pl1: State,
    pb0: Set<SongId>,
    pb1: Set<SongId>,
    own0: Set<SongId>,
    own1: Set<SongId>,
    r: Response,
) -> bool {
    match cmd {
        ClientMsg::Search { by, value } => {
            &&& pl1@ == pl0@ && pb1 == pb0 && own1 == own0 && !r.save
            &&& r.event matches Some(ServerEvent::SearchResult { songs }) && search_matches(
                lib,
                by,
                value,
                songs@,
            )
        },
        ClientMsg::LibraryList => {
            &&& pl1@ == pl0@ && pb1 == pb0 && own1 == own0 && !r.save
            &&& r.event matches Some(ServerEvent::LibrarySnapshot { songs }) && lists_library(songs@, lib)
        },
        ClientMsg::PlaylistList => {
            &&& pl1@ == pl0@ && pb1 == pb0 && own1 == own0 && !r.save
            &&& shows_playlists(r.event, pl1)
        },
        ClientMsg::PlaylistCreate { name } => {
            &&& pb1 == pb0 && own1 == own0
            &&& if name_accepted(pl0@.0, name@) {
                &&& pl1@.0 == pl0@.0.insert(
                    pl0.next_id,
                    (pl0.next_id, trimmed(name@), Seq::<SongId>::empty()),
                )
                &&& pl1@.1 == pl0.next_id + 1
                &&& r.save
                &&& shows_playlists(r.event, pl1)
            } else {
                &&& pl1@ == pl0@ && !r.save
                &&& r.event matches Some(ServerEvent::Error { code, msg }) && code
                    == ErrorCode::BadRequest && msg@ == refusal_msg(name@)
            }
        },
        ClientMsg::PlaylistDelete { playlist_id } => {
            &&& pb1 == pb0 && own1 == own0 && r.save
            &&& pl1@ == (pl0@.0.remove(playlist_id), pl0@.1)
            &&& shows_playlists(r.event, pl1)
        },
        ClientMsg::PlaylistAdd { playlist_id, song_id } => {
            &&& pb1 == pb0 && own1 == own0 && r.save
            &&& pl1@ == (with_song_added(pl0@.0, playlist_id, song_id), pl0@.1)
            &&& shows_playlists(r.event, pl1)
        },
        ClientMsg::PlaylistRemove { playlist_id, song_id } => {
            &&& pb1 == pb0 && own1 == own0 && r.save
            &&& pl1@ == (with_song_removed(pl0@.0, playlist_id, song_id), pl0@.1)
            &&& shows_playlists(r.event, pl1)
        },
        ClientMsg::PlaylistFilter { playlist_id, by, value } => {
            &&& pl1@ == pl0@ && pb1 == pb0 && own1 == own0 && !r.save
            &&& r.event matches Some(ServerEvent::SearchResult { songs }) && filter_matches(
                lib,
                pl0,
                playlist_id,
                by,
                value,
                songs@,
            )
        },
        ClientMsg::PlaylistSort { playlist_id, by } => {
            &&& pb1 == pb0 && own1 == own0
            &&& if pl0@.0.contains_key(playlist_id) {
                &&& sort_matches(lib, pl0, playlist_id, by, Some(pl1))
                &&& r.save
                &&& shows_playlists(r.event, pl1)
            } else {
                pl1@ == pl0@ && !r.save && r.event is None
            }
        },
        ClientMsg::Play { song_id } => {
            &&& pl1@ == pl0@ && !r.save
            &&& if lib.songs().contains_key(song_id) {
                &&& pb1 == pb0.insert(song_id) && own1 == own0.insert(song_id)
                &&& r.event matches Some(ServerEvent::NowPlaying { song_id: id, stream_url }) && id
                    == song_id && stream_url@ == "/stream/"@ + decimal(song_id as nat)
            } else {
                &&& pb1 == pb0 && own1 == own0
                &&& r.event matches Some(ServerEvent::Error { code, msg }) && code == ErrorCode::NotFound
                    && msg@ == "song "@ + decimal(song_id as nat) + " not found"@
            }
        },
        ClientMsg::Stop { song_id } => {
            &&& pl1@ == pl0@ && !r.save
            &&& pb1 == pb0.remove(song_id) && own1 == own0.remove(song_id)
            &&& r.event matches Some(ServerEvent::PlaybackStopped { song_id: id }) && id == song_id
        },
    }
}

/// The playlist snapshot event for `st`.
fn playlist_snapshot(st: &State) -> (r: Option<ServerEvent>)
    ensures
        shows_playlists(r, *st),
{
    Some(ServerEvent::PlaylistSnapshot { playlists: table_values(&st.playlists) })
}

/// A playlist creation may be attempted on `pl`: creating under a name
/// that is accepted needs a next id below the largest one.
pub open spec fn creation_fits(cmd: ClientMsg, pl: State) -> bool {
    cmd matches ClientMsg::PlaylistCreate { name } ==> (name_accepted(pl@.0, name@) ==> pl.next_id
        < u64::MAX)
}

/// Handles one request from a client: updates the playlists, the playing
/// set and this connection's playing set, and says what to broadcast and
/// whether to save.
pub fn handle_client_msg(
    cmd: ClientMsg,
    lib: &Library,
    playlists: &mut State,
    playback: &mut Playback,
    owned_playing: &mut HashSet<SongId>,
) -> (r: Response)
    requires
        lib.wf(),
        creation_fits(cmd, *old(playlists)),
    ensures
        handled(
            cmd,
            *lib,
            *old(playlists),
            *final(playlists),
            old(playback)@,
            final(playback)@,
            old(owned_playing)@,
            final(owned_playing)@,
            r,
        ),
{
    match cmd {
        ClientMsg::Search { by, value } => {
            let songs = search(lib, by, &value);
            Response { event: Some(ServerEvent::SearchResult { songs }), save: false }
        },
        ClientMsg::LibraryList => {
            let songs = lib.list();
            Response { event: Some(ServerEvent::LibrarySnapshot { songs }), save: false }
        },
        ClientMsg::PlaylistList => Response { event: playlist_snapshot(playlists), save: false },
        ClientMsg::PlaylistCreate { name } => {
            match ops::create(playlists, name.clone()) {
                Some((next, _)) => {
                    *playlists = next;
                    Response { event: playlist_snapshot(playlists), save: true }
                },
                None => {
                    let t = trim(name.as_str());
                    let msg = if t.as_str().is_empty() {
                        String::from_str("El nombre no puede estar vac\u{ed}o")
                    } else {
                        name_in_use_msg(t.as_str())
                    };
                    proof {
                        reveal_strlit("El nombre no puede estar vac\u{ed}o");
                    }
                    Response {
                        event: Some(ServerEvent::Error { code: ErrorCode::BadRequest, msg }),
                        save: false,
                    }
                },
            }
        },
        ClientMsg::PlaylistDelete { playlist_id } => {
            let next = ops::delete(playlists, playlist_id);
            *playlists = next;
            Response { event: playlist_snapshot(playlists), save: true }
        },
        ClientMsg::PlaylistAdd { playlist_id, song_id } => {
            let next = ops::add_song(playlists, playlist_id, song_id);
            *playlists = next;
            Response { event: playlist_snapshot(playlists), save: true }
        },
        ClientMsg::PlaylistRemove { playlist_id, song_id } => {
            let next = ops::remove_song(playlists, playlist_id, song_id);
            *playlists = next;
            Response { event: playlist_snapshot(playlists), save: true }
        },
        ClientMsg::PlaylistFilter { playlist_id, by, value } => {
            let songs = playlist_filter(lib, playlists, playlist_id, by, &value);
            Response { event: Some(ServerEvent::SearchResult { songs }), save: false }
        },
        ClientMsg::PlaylistSort { playlist_id, by } => {
            match playlist_sort(lib, playlists, playlist_id, by) {
                Some(next) => {
                    *playlists = next;
                    Response { event: playlist_snapshot(playlists), save: true }
                },
                None => Response { event: None, save: false },
            }
        },
        ClientMsg::Play { song_id } => {
            if lib.get(song_id).is_none() {
                let msg = song_not_found_msg(song_id);
                return Response {
                    event: Some(ServerEvent::Error { code: ErrorCode::NotFound, msg }),
                    save: false,
                };
            }
            playback.mark_playing(&song_id);
            owned_playing.insert(song_id);
            Response {
                event: Some(ServerEvent::NowPlaying { song_id, stream_url: stream_url(song_id) }),
                save: false,
            }
        },
        ClientMsg::Stop { song_id } => {
            playback.mark_stopped(&song_id);
            owned_playing.remove(&song_id);
            Response { event: Some(ServerEvent::PlaybackStopped { song_id }), save: false }
        },
    }
}

/// Handles one request as `handle_client_msg` does, except a playlist
/// creation while the playlist id counter is at its largest value, which
/// would overflow it: that gives `None` and changes nothing.
pub fn handle_request(
    cmd: ClientMsg,
    lib: &Library,
    playlists: &mut State,
    playback: &mut Playback,
    owned_playing: &mut HashSet<SongId>,
) -> (r: Option<Response>)
    requires
        lib.wf(),
    ensures
        r is None <==> (cmd is PlaylistCreate && old(playlists).next_id == u64::MAX),
        r is None ==> final(playlists)@ == old(playlists)@ && final(playback)@ == old(playback)@
            && final(owned_playing)@ == old(owned_playing)@,
        r matches Some(resp) ==> handled(
            cmd,
            *lib,
            *old(playlists),
            *final(playlists),
            old(playback)@,
            final(playback)@,
            old(owned_playing)@,
            final(owned_playing)@,
            resp,
        ),
{
    let exhausted = match &cmd {
        ClientMsg::PlaylistCreate { .. } => playlists.next_id == u64::MAX,
        _ => false,
    };
    if exhausted {
        return None;
    }
    Some(handle_client_msg(cmd, lib, playlists, playback, owned_playing))
}

/// `events` stops, position by position, the songs `ids`: each song of
/// `owned` exactly once.
pub open spec fn stops_each(events: Seq<ServerEvent>, ids: Seq<SongId>, owned: Set<SongId>) -> bool {
    &&& events.len() == ids.len()
    &&& ids.no_duplicates()
    &&& ids.to_set() == owned
    &&& forall|i: int|
        0 <= i < ids.len() ==> (#[trigger] events[i] matches ServerEvent::PlaybackStopped { song_id }
            && song_id == ids[i])
}

/// When a connection closes: every song it started is marked stopped, and
/// a stop event is produced for each.
pub fn release_owned(owned_playing: &mut HashSet<SongId>, playback: &mut Playback) -> (r: Vec<
    ServerEvent,
>)
    ensures
        final(owned_playing)@ == Set::<SongId>::empty(),
        final(playback)@ == old(playback)@.difference(old(owned_playing)@),
        exists|ids: Seq<SongId>| stops_each(r@, ids, old(owned_playing)@),
{
    let ghost own = owned_playing@;
    let ghost pb0 = playback@;
    let mut events: Vec<ServerEvent> = Vec::new();
    let ghost mut ids: Seq<SongId> = Seq::empty();
    let ghost mut seen: int = 0;
    for id in it: owned_playing.iter()
        invariant
            own == owned_playing@,
            seen == it.index(),
            it.seq().len() == own.len(),
            it.seq().no_duplicates(),
            it.seq().unref().to_set() == own,
            ids.len() == seen,
            forall|j: int| 0 <= j < seen ==> #[trigger] ids[j] == *it.seq()[j],
            forall|j: int| 0 <= j < seen ==> own.contains(#[trigger] ids[j]),
            events@.len() == ids.len(),
            forall|j: int|
                0 <= j < ids.len() ==> (#[trigger] events@[j] matches ServerEvent::PlaybackStopped {
                    song_id,
                } && song_id == ids[j]),
            playback@ == pb0.difference(ids.to_set()),
            forall|x: SongId| #[trigger]
                own.contains(x) ==> ids.contains(x) || exists|q: int|
                    seen <= q < it.seq().len() && *(#[trigger] it.seq()[q]) == x,
    {
        let ghost sq = it.seq();
        let ghost i = it.index();
        let ghost ids0 = ids;
        let ghost pb1 = playback@;
        playback.mark_stopped(id);
        events.push(ServerEvent::PlaybackStopped { song_id: *id });
        proof {
            assert(sq[i] == id);
            assert(sq.unref()[i] == *id);
            assert(sq.unref().contains(*id));
            assert(own.contains(*id));
            ids = ids0.push(*id);
            assert forall|x: SongId| #[trigger] ids.contains(x) == (ids0.contains(x) || x == *id) by {
                if x == *id {
                    assert(ids[ids.len() - 1] == x);
                }
                if ids0.contains(x) {
                    let j = choose|j: int| 0 <= j < ids0.len() && ids0[j] == x;
                    assert(ids[j] == x);
                }
                if ids.contains(x) && x != *id {
                    let j = choose|j: int| 0 <= j < ids.len() && ids[j] == x;
                    assert(ids0[j] == x);
                }
            }
            assert(playback@ =~= pb0.difference(ids.to_set()));
            assert forall|x: SongId| #[trigger] own.contains(x) implies ids.contains(x) || exists|q: int|
                seen + 1 <= q < sq.len() && *(#[trigger] sq[q]) == x by {
                if !ids0.contains(x) && x != *id {
                    let q = choose|q: int| seen <= q < sq.len() && *(#[trigger] sq[q]) == x;
                    assert(q != i);
                }
            }
            seen = seen + 1;
        }
    }
    proof {
        assert(seen == own.len());
        assert(ids.no_duplicates()) by {
            assert forall|a: int, b: int| 0 <= a < ids.len() && 0 <= b < ids.len() && a != b implies ids[a]
                != ids[b] by {
            }
        }
        assert forall|x: SongId| #[trigger] own.contains(x) implies ids.contains(x) by {}
        assert forall|x: SongId| ids.contains(x) implies #[trigger] own.contains(x) by {
            let j = choose|j: int| 0 <= j < ids.len() && ids[j] == x;
        }
        assert(ids.to_set() =~= own);
        assert(stops_each(events@, ids, own));
    }
    owned_playing.clear();
    events
}

/// The playing set after `stop` requests for `ids`, one after another.
pub open spec fn after_stops(played: Set<SongId>, ids: Seq<SongId>) -> Set<SongId>
    decreases ids.len(),
{
    if ids.len() == 0 {
        played
    } else {
        after_stops(played, ids.drop_last()).remove(ids.last())
    }
}

/// Closing a connection leaves the playing set as sending `stop` for each
/// song it started would, in whatever order they are sent.
pub proof fn lemma_close_is_stopping_each(played: Set<SongId>, ids: Seq<SongId>)
    ensures
        after_stops(played, ids) == played.difference(ids.to_set()),
    decreases ids.len(),
{
    if ids.len() > 0 {
        let init = ids.drop_last();
        lemma_close_is_stopping_each(played, init);
        assert forall|x: SongId| #[trigger] ids.to_set().contains(x) == (init.to_set().contains(x) || x
            == ids.last()) by {
            if ids.contains(x) && x != ids.last() {
                let j = choose|j: int| 0 <= j < ids.len() && ids[j] == x;
                assert(j < ids.len() - 1);
                assert(init[j] == x);
            }
            if init.contains(x) {
                let j = choose|j: int| 0 <= j < init.len() && init[j] == x;
                assert(ids[j] == x);
            }
            if x == ids.last() {
                assert(ids[ids.len() - 1] == x);
            }
        }
        assert(after_stops(played, ids) =~= played.difference(ids.to_set()));
    } else {
        assert(ids.to_set() =~= Set::<SongId>::empty());
        assert(played.difference(ids.to_set()) =~= played);
    }
}

/// What a client receives on connecting: the library, then the playlists.
pub fn initial_events(lib: &Library, playlists: &State) -> (r: Vec<ServerEvent>)
    requires
        lib.wf(),
    ensures
        r@.len() == 2,
        r@[0] matches ServerEvent::LibrarySnapshot { songs } && lists_library(songs@, *lib),
        shows_playlists(Some(r@[1]), *playlists),
{
    let mut r: Vec<ServerEvent> = Vec::new();
    r.push(ServerEvent::LibrarySnapshot { songs: lib.list() });
    r.push(ServerEvent::PlaylistSnapshot { playlists: table_values(&playlists.playlists) });
    r
}

} // verus!
