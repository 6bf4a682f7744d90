//! Pure operations on the playlist state: each takes the current state and
//! returns the next one, leaving the given state as it was.

use vstd::prelude::*;

use crate::domain::{Playlist, PlaylistId, Song, SongId};
use crate::library::{drop_id, lemma_drop_id, lemma_drop_id_filters};
use crate::persistent::{
    song_vector_items, song_vector_new, song_vector_push_back, id_vector_clone, id_vector_get, id_vector_items, id_vector_len, id_vector_new,
    id_vector_push_back, lists_entries, playlist_table, table_get, table_update, table_values,
    table_without,
};
use crate::playlists::state::{models, playlists_by_id, PlaylistModel, State};
use crate::text::{chars_of, lemma_trimmed_idempotent, lowercase, to_lowercase, trim, trimmed};

verus! {

/// Some playlist of `m` has a name equal to `name` once both are trimmed
/// and lower-cased.
pub open spec fn name_taken(m: Map<PlaylistId, PlaylistModel>, name: Seq<char>) -> bool {
    exists|k: PlaylistId| #[trigger]
        m.contains_key(k) && lowercase(trimmed(m[k].1)) == lowercase(trimmed(name))
}

/// A playlist may be created under `name`: it is not blank and not taken.
pub open spec fn name_accepted(m: Map<PlaylistId, PlaylistModel>, name: Seq<char>) -> bool {
    trimmed(name).len() > 0 && !name_taken(m, name)
}

/// The naming rule: a name is accepted exactly when, trimmed, it is not
/// blank and no playlist's trimmed name equals it once both are
/// lower-cased. (A name merely contained in another, such as `Rock` beside
/// `Rock Classics`, is accepted.)
pub proof fn lemma_name_rule(m: Map<PlaylistId, PlaylistModel>, name: Seq<char>)
    ensures
        name_accepted(m, name) <==> trimmed(name).len() > 0 && forall|k: PlaylistId|
            #[trigger] m.contains_key(k) ==> lowercase(trimmed(m[k].1)) != lowercase(trimmed(name)),
{
}

/// Creates an empty playlist named `name` (trimmed) under the next id.
/// Gives `None` when the trimmed name is empty or another playlist has the
/// same name up to case and surrounding white space.
pub fn create(state: &State, name: String) -> (r: Option<(State, PlaylistId)>)
    requires
        name_accepted(state@.0, name@) ==> state.next_id < u64::MAX,
    ensures
        r is None <==> !name_accepted(state@.0, name@),
        r is None ==> trimmed(name@).len() == 0 || exists|k: PlaylistId|
            #[trigger] state@.0.contains_key(k) && lowercase(trimmed(state@.0[k].1)) == lowercase(
                trimmed(name@),
            ),
        r is Some ==> trimmed(name@).len() > 0 && forall|k: PlaylistId|
            #[trigger] state@.0.contains_key(k) ==> lowercase(trimmed(state@.0[k].1)) != lowercase(
                trimmed(name@),
            ),
        r matches Some((s2, id)) ==> {
            &&& id == state.next_id
            &&& s2@.1 == id + 1
            &&& s2@.0 == state@.0.insert(id, (id, trimmed(name@), Seq::<SongId>::empty()))
        },
{
    let t = trim(name.as_str());
    if t.as_str().is_empty() {
        return None;
    }
    let needle = to_lowercase(t.as_str());
    let existing = table_values(&state.playlists);
    let ghost table = playlist_table(state.playlists);
    let ghost ks = choose|ks: Seq<PlaylistId>| lists_entries(existing@, ks, table);
    let mut i: usize = 0;
    while i < existing.len()
        invariant
            i <= existing@.len(),
            lists_entries(existing@, ks, table),
            table == playlist_table(state.playlists),
            needle@ == lowercase(trimmed(name@)),
            forall|j: int|
                0 <= j < i ==> lowercase(trimmed((#[trigger] existing@[j]).name@)) != needle@,
        decreases existing@.len() - i,
    {
        let other = to_lowercase(trim(existing[i].name.as_str()).as_str());
        if other == needle {
            proof {
                let k = ks[i as int];
                assert(ks.contains(k));
                assert(ks.to_set().contains(k));
                assert(table.contains_key(k));
                assert(existing@[i as int]@ == table[k]@);
                assert(state@.0.contains_key(k));
                assert(state@.0[k].1 == existing@[i as int].name@);
            }
            return None;
        }
        i = i + 1;
    }
    proof {
        assert forall|k: PlaylistId| #[trigger] state@.0.contains_key(k) implies lowercase(
            trimmed(state@.0[k].1),
        ) != lowercase(trimmed(name@)) by {
            assert(ks.to_set().contains(k));
            let j = choose|j: int| 0 <= j < ks.len() && ks[j] == k;
            assert(existing@[j]@ == table[k]@);
        }
    }
    let id = state.next_id;
    let pl = Playlist { id, name: t, songs: id_vector_new() };
    let playlists = table_update(&state.playlists, id, pl);
    let s2 = State { playlists, next_id: id + 1 };
    proof {
        assert(s2@.0 =~= state@.0.insert(id, (id, trimmed(name@), Seq::<SongId>::empty())));
    }
    Some((s2, id))
}

/// Deletes the playlist `pid` (if any).
pub fn delete(state: &State, pid: PlaylistId) -> (r: State)
    ensures
        r@ == (state@.0.remove(pid), state@.1),
{
    let r = State { playlists: table_without(&state.playlists, pid), next_id: state.next_id };
    assert(r@.0 =~= state@.0.remove(pid));
    r
}

/// The model of playlist `p` with its song ids replaced by `songs`.
pub open spec fn with_songs(p: PlaylistModel, songs: Seq<SongId>) -> PlaylistModel {
    (p.0, p.1, songs)
}

/// The playlists of `m` after appending `sid` to playlist `pid`, if it exists.
pub open spec fn with_song_added(m: Map<PlaylistId, PlaylistModel>, pid: PlaylistId, sid: SongId) -> Map<
    PlaylistId,
    PlaylistModel,
> {
    if m.contains_key(pid) {
        m.insert(pid, with_songs(m[pid], m[pid].2.push(sid)))
    } else {
        m
    }
}

/// The playlists of `m` after removing `sid` from playlist `pid`, if it exists.
pub open spec fn with_song_removed(m: Map<PlaylistId, PlaylistModel>, pid: PlaylistId, sid: SongId) -> Map<
    PlaylistId,
    PlaylistModel,
> {
    if m.contains_key(pid) {
        m.insert(pid, with_songs(m[pid], drop_id(m[pid].2, sid)))
    } else {
        m
    }
}

/// The state with the songs of playlist `pid` replaced by `songs`; other
/// fields of the playlist are copied from the stored one.
fn replace_songs(state: &State, pid: PlaylistId, songs: im::Vector<SongId>) -> (r: State)
    requires
        state@.0.contains_key(pid),
    ensures
        r@ == (state@.0.insert(pid, with_songs(state@.0[pid], id_vector_items(songs))), state@.1),
{
    match table_get(&state.playlists, pid) {
        Some(pl) => {
            let np = Playlist { id: pl.id, name: pl.name.clone(), songs };
            let r = State { playlists: table_update(&state.playlists, pid, np), next_id: state.next_id };
            assert(r@.0 =~= state@.0.insert(pid, with_songs(state@.0[pid], id_vector_items(songs))));
            r
        },
        None => {
            assert(false);
            state.clone()
        },
    }
}

/// Appends `sid` to playlist `pid`; an unknown playlist leaves the state
/// as it was.
pub fn add_song(state: &State, pid: PlaylistId, sid: SongId) -> (r: State)
    ensures
        state@.0.contains_key(pid) ==> r@ == (
            state@.0.insert(pid, with_songs(state@.0[pid], state@.0[pid].2.push(sid))),
            state@.1,
        ),
        !state@.0.contains_key(pid) ==> r@ == state@,
{
    match table_get(&state.playlists, pid) {
        Some(pl) => {
            let mut songs = id_vector_clone(&pl.songs);
            id_vector_push_back(&mut songs, sid);
            replace_songs(state, pid, songs)
        },
        None => state.clone(),
    }
}

/// The ids of `v` without `sid`, order kept.
fn vector_without(v: &im::Vector<SongId>, sid: SongId) -> (r: im::Vector<SongId>)
    ensures
        id_vector_items(r) == drop_id(id_vector_items(*v), sid),
{
    let ghost items = id_vector_items(*v);
    let n = id_vector_len(v);
    let mut r = id_vector_new();
    let mut i: usize = 0;
    while i < n
        invariant
            n == items.len(),
            items == id_vector_items(*v),
            i <= n,
            id_vector_items(r) == drop_id(items.take(i as int), sid),
        decreases n - i,
    {
        proof {
            assert(items.take(i + 1).drop_last() =~= items.take(i as int));
        }
        match id_vector_get(v, i) {
            Some(x) => {
                if x != sid {
                    id_vector_push_back(&mut r, x);
                }
            },
            None => {},
        }
        i = i + 1;
    }
    proof {
        assert(items.take(n as int) =~= items);
    }
    r
}

/// Removes every occurrence of `sid` from playlist `pid`; an unknown
/// playlist leaves the state as it was.
pub fn remove_song(state: &State, pid: PlaylistId, sid: SongId) -> (r: State)
    ensures
        state@.0.contains_key(pid) ==> r@ == (
            state@.0.insert(pid, with_songs(state@.0[pid], drop_id(state@.0[pid].2, sid))),
            state@.1,
        ),
        !state@.0.contains_key(pid) ==> r@ == state@,
        state@.0.contains_key(pid) ==> r@.0[pid].2 == state@.0[pid].2.filter(|x: SongId| x != sid),
{
    proof {
        if state@.0.contains_key(pid) {
            lemma_drop_id_filters(state@.0[pid].2, sid);
        }
    }
    match table_get(&state.playlists, pid) {
        Some(pl) => {
            let songs = vector_without(&pl.songs, sid);
            replace_songs(state, pid, songs)
        },
        None => state.clone(),
    }
}

/// Replaces the song order of playlist `pid` with `order`; an unknown
/// playlist leaves the state as it was.
pub fn reorder(state: &State, pid: PlaylistId, order: im::Vector<SongId>) -> (r: State)
    ensures
        state@.0.contains_key(pid) ==> r@ == (
            state@.0.insert(pid, with_songs(state@.0[pid], id_vector_items(order))),
            state@.1,
        ),
        !state@.0.contains_key(pid) ==> r@ == state@,
{
    match table_get(&state.playlists, pid) {
        Some(_) => replace_songs(state, pid, order),
        None => state.clone(),
    }
}

/// The first song of `lib` whose id is `id`, if any.
pub open spec fn first_with_id(lib: Seq<Song>, id: SongId) -> Option<Song>
    decreases lib.len(),
{
    if lib.len() == 0 {
        None
    } else if lib[0].id == id {
        Some(lib[0])
    } else {
        first_with_id(lib.drop_first(), id)
    }
}

/// The songs of the playlist ids `ids`, each looked up as the first song of
/// `lib` with that id; ids that `lib` lacks are skipped.
pub open spec fn found_songs(ids: Seq<SongId>, lib: Seq<Song>) -> Seq<Song>
    decreases ids.len(),
{
    if ids.len() == 0 {
        Seq::empty()
    } else {
        match first_with_id(lib, ids.last()) {
            Some(s) => found_songs(ids.drop_last(), lib).push(s),
            None => found_songs(ids.drop_last(), lib),
        }
    }
}

/// The first song of `lib` whose id is `id`.
fn find_in(lib: &[Song], id: SongId) -> (r: Option<&Song>)
    ensures
        match r {
            Some(s) => first_with_id(lib@, id) == Some(*s),
            None => first_with_id(lib@, id) is None,
        },
{
    let mut i: usize = 0;
    proof {
        assert(lib@.skip(0) =~= lib@);
    }
    while i < lib.len()
        invariant
            i <= lib@.len(),
            first_with_id(lib@, id) == first_with_id(lib@.skip(i as int), id),
        decreases lib@.len() - i,
    {
        proof {
            assert(lib@.skip(i as int).drop_first() =~= lib@.skip(i + 1));
            assert(lib@.skip(i as int)[0] == lib@[i as int]);
        }
        if lib[i].id == id {
            return Some(&lib[i]);
        }
        i = i + 1;
    }
    None
}

/// The songs of playlist `p`, looked up in `library`.
fn playlist_songs(p: &Playlist, library: &[Song]) -> (r: Vec<Song>)
    ensures
        r@ == found_songs(id_vector_items(p.songs), library@),
{
    let ghost items = id_vector_items(p.songs);
    let n = id_vector_len(&p.songs);
    let mut r: Vec<Song> = Vec::new();
    let mut i: usize = 0;
    while i < n
        invariant
            n == items.len(),
            items == id_vector_items(p.songs),
            i <= n,
            r@ == found_songs(items.take(i as int), library@),
        decreases n - i,
    {
        proof {
            assert(items.take(i + 1).drop_last() =~= items.take(i as int));
        }
        match id_vector_get(&p.songs, i) {
            Some(sid) => {
                match find_in(library, sid) {
                    Some(s) => {
                        r.push(s.clone());
                    },
                    None => {},
                }
            },
            None => {},
        }
        i = i + 1;
    }
    proof {
        assert(items.take(n as int) =~= items);
    }
    r
}

/// The items of `xs` whose mark in `keep` is set, in order.
pub open spec fn marked(xs: Seq<Song>, keep: Seq<bool>) -> Seq<Song>
    decreases xs.len(),
{
    if xs.len() == 0 || keep.len() == 0 {
        Seq::empty()
    } else if keep.last() {
        marked(xs.drop_last(), keep.drop_last()).push(xs.last())
    } else {
        marked(xs.drop_last(), keep.drop_last())
    }
}

/// `keep` holds, position by position, an answer `pred` may give for `xs`.
pub open spec fn answers<F: Fn(&Song) -> bool>(pred: F, xs: Seq<Song>, keep: Seq<bool>) -> bool {
    &&& keep.len() == xs.len()
    &&& forall|i: int| 0 <= i < xs.len() ==> call_ensures(pred, (&xs[i],), #[trigger] keep[i])
}

/// The songs of playlist `p` (looked up in `library`) that `pred` accepts,
/// in playlist order. `keep` records what `pred` answered for each.
pub fn filter_songs<F: Fn(&Song) -> bool>(p: &Playlist, library: &[Song], pred: F) -> (r: im::Vector<
    Song,
>)
    requires
        forall|s: Song| call_requires(pred, (&s,)),
    ensures
        exists|keep: Seq<bool>|
            answers(pred, found_songs(id_vector_items(p.songs), library@), keep) && song_vector_items(r)
                == #[trigger] marked(found_songs(id_vector_items(p.songs), library@), keep),
{
    let songs = playlist_songs(p, library);
    let mut r = song_vector_new();
    let ghost mut keep: Seq<bool> = Seq::empty();
    let mut i: usize = 0;
    while i < songs.len()
        invariant
            forall|s: Song| call_requires(pred, (&s,)),
            i <= songs@.len(),
            keep.len() == i,
            forall|j: int| 0 <= j < i ==> call_ensures(pred, (&songs@[j],), #[trigger] keep[j]),
            song_vector_items(r) == marked(songs@.take(i as int), keep),
        decreases songs@.len() - i,
    {
        let b = pred(&songs[i]);
        proof {
            assert(songs@.take(i + 1).drop_last() =~= songs@.take(i as int));
            assert(keep.push(b).drop_last() =~= keep);
            keep = keep.push(b);
        }
        if b {
            song_vector_push_back(&mut r, songs[i].clone());
        }
        i = i + 1;
    }
    proof {
        assert(songs@.take(songs@.len() as int) =~= songs@);
        assert(answers(pred, songs@, keep));
    }
    r
}

/// The total of the durations of `xs`, in seconds.
pub open spec fn total_secs(xs: Seq<Song>) -> int
    decreases xs.len(),
{
    if xs.len() == 0 {
        0
    } else {
        total_secs(xs.drop_last()) + xs.last().duration_secs
    }
}

/// A prefix never has a larger total than the whole.
pub proof fn lemma_total_secs_prefix(xs: Seq<Song>, i: int)
    requires
        0 <= i <= xs.len(),
    ensures
        total_secs(xs.take(i)) <= total_secs(xs),
    decreases xs.len() - i,
{
    if i < xs.len() {
        lemma_total_secs_prefix(xs, i + 1);
        assert(xs.take(i + 1).drop_last() =~= xs.take(i));
    } else {
        assert(xs.take(i) =~= xs);
    }
}

/// The total duration of the songs of playlist `p` found in `library`.
pub fn total_duration(p: &Playlist, library: &[Song]) -> (r: u32)
    requires
        total_secs(found_songs(id_vector_items(p.songs), library@)) <= u32::MAX,
    ensures
        r == total_secs(found_songs(id_vector_items(p.songs), library@)),
{
    let songs = playlist_songs(p, library);
    let mut acc: u32 = 0;
    let mut i: usize = 0;
    proof {
        assert(songs@.take(0) =~= Seq::<Song>::empty());
    }
    while i < songs.len()
        invariant
            total_secs(songs@) <= u32::MAX,
            i <= songs@.len(),
            acc == total_secs(songs@.take(i as int)),
        decreases songs@.len() - i,
    {
        proof {
            assert(songs@.take(i + 1).drop_last() =~= songs@.take(i as int));
            lemma_total_secs_prefix(songs@, i + 1);
        }
        acc = acc + songs[i].duration_secs;
        i = i + 1;
    }
    proof {
        assert(songs@.take(songs@.len() as int) =~= songs@);
    }
    acc
}

/// The total duration of the songs of playlist `p` found in `library`, or
/// `None` when it does not fit in 32 bits (where `total_duration` would
/// overflow).
pub fn checked_total_duration(p: &Playlist, library: &[Song]) -> (r: Option<u32>)
    ensures
        match r {
            Some(v) => v == total_secs(found_songs(id_vector_items(p.songs), library@)),
            None => total_secs(found_songs(id_vector_items(p.songs), library@)) > u32::MAX,
        },
{
    let songs = playlist_songs(p, library);
    let mut acc: u32 = 0;
    let mut i: usize = 0;
    proof {
        assert(songs@.take(0) =~= Seq::<Song>::empty());
    }
    while i < songs.len()
        invariant
            songs@ == found_songs(id_vector_items(p.songs), library@),
            i <= songs@.len(),
            acc == total_secs(songs@.take(i as int)),
        decreases songs@.len() - i,
    {
        proof {
            assert(songs@.take(i + 1).drop_last() =~= songs@.take(i as int));
        }
        let d = songs[i].duration_secs;
        if d > u32::MAX - acc {
            proof {
                assert(songs@.take(i + 1).last() == songs@[i as int]);
                assert(total_secs(songs@.take(i + 1)) > u32::MAX);
                lemma_total_secs_prefix(songs@, i + 1);
            }
            return None;
        }
        acc = acc + d;
        i = i + 1;
    }
    proof {
        assert(songs@.take(songs@.len() as int) =~= songs@);
    }
    Some(acc)
}

/// Keys that playlists can be sorted by: a total preorder with an
/// executable test, as `Ord` gives it for the key types in use.
pub trait SortKey: Sized {
    /// `self` sorts before or together with `other`.
    spec fn key_le(self, other: Self) -> bool;

    /// Any two keys are comparable.
    proof fn lemma_key_le_total(a: Self, b: Self)
        ensures
            a.key_le(b) || b.key_le(a),
    ;

    /// The order is transitive.
    proof fn lemma_key_le_trans(a: Self, b: Self, c: Self)
        requires
            a.key_le(b),
            b.key_le(c),
        ensures
            a.key_le(c),
    ;

    /// Whether `self` sorts before or together with `other`.
    fn le_key(&self, other: &Self) -> (r: bool)
        ensures
            r == self.key_le(*other),
    ;
}

impl SortKey for u16 {
    open spec fn key_le(self, other: Self) -> bool {
        self <= other
    }

    proof fn lemma_key_le_total(a: Self, b: Self) {
    }

    proof fn lemma_key_le_trans(a: Self, b: Self, c: Self) {
    }

    fn le_key(&self, other: &Self) -> (r: bool) {
        *self <= *other
    }
}

impl SortKey for u32 {
    open spec fn key_le(self, other: Self) -> bool {
        self <= other
    }

    proof fn lemma_key_le_total(a: Self, b: Self) {
    }

    proof fn lemma_key_le_trans(a: Self, b: Self, c: Self) {
    }

    fn le_key(&self, other: &Self) -> (r: bool) {
        *self <= *other
    }
}

/// Lexicographic order on characters, which is how `String`s compare
/// (UTF-8 byte order agrees with code point order).
pub open spec fn lex_le(a: Seq<char>, b: Seq<char>) -> bool
    decreases a.len(),
{
    if a.len() == 0 {
        true
    } else if b.len() == 0 {
        false
    } else if a[0] != b[0] {
        a[0] < b[0]
    } else {
        lex_le(a.drop_first(), b.drop_first())
    }
}

/// Titles compare as `String`s do: `a` sorts before or with `b` exactly
/// when `a` is a prefix of `b`, or at the first position where they differ
/// `a`'s character is the smaller one.
pub proof fn lemma_lex_le_is_lexicographic(a: Seq<char>, b: Seq<char>)
    ensures
        lex_le(a, b) <==> (a.len() <= b.len() && b.take(a.len() as int) == a) || exists|i: int|
            #![trigger a.take(i), b.take(i)]
            0 <= i < a.len() && i < b.len() && a.take(i) == b.take(i) && a[i] < b[i],
    decreases a.len(),
{
    if a.len() == 0 {
        assert(b.take(0) =~= a);
    } else if b.len() == 0 {
    } else if a[0] != b[0] {
        if a.len() <= b.len() {
            assert(b.take(a.len() as int)[0] == b[0]);
        }
        if exists|i: int|
            #![trigger a.take(i), b.take(i)]
            0 <= i < a.len() && i < b.len() && a.take(i) == b.take(i) && a[i] < b[i] {
            let i = choose|i: int|
                #![trigger a.take(i), b.take(i)]
                0 <= i < a.len() && i < b.len() && a.take(i) == b.take(i) && a[i] < b[i];
            if i > 0 {
                assert(a.take(i)[0] == b.take(i)[0]);
            }
        }
        if a[0] < b[0] {
            assert(a.take(0) =~= b.take(0));
        }
    } else {
        let a1 = a.drop_first();
        let b1 = b.drop_first();
        lemma_lex_le_is_lexicographic(a1, b1);
        // prefixes
        if a1.len() <= b1.len() && b1.take(a1.len() as int) == a1 {
            assert(b.take(a.len() as int) =~= a) by {
                assert forall|j: int| 0 <= j < a.len() implies b.take(a.len() as int)[j] == a[j] by {
                    if j > 0 {
                        assert(b1.take(a1.len() as int)[j - 1] == a1[j - 1]);
                    }
                }
            }
        }
        if a.len() <= b.len() && b.take(a.len() as int) == a {
            assert(b1.take(a1.len() as int) =~= a1) by {
                assert forall|j: int| 0 <= j < a1.len() implies b1.take(a1.len() as int)[j] == a1[j] by {
                    assert(b.take(a.len() as int)[j + 1] == a[j + 1]);
                }
            }
        }
        // first difference
        if exists|i: int|
            #![trigger a1.take(i), b1.take(i)]
            0 <= i < a1.len() && i < b1.len() && a1.take(i) == b1.take(i) && a1[i] < b1[i] {
            let i = choose|i: int|
                #![trigger a1.take(i), b1.take(i)]
                0 <= i < a1.len() && i < b1.len() && a1.take(i) == b1.take(i) && a1[i] < b1[i];
            let k = i + 1;
            assert(a.take(k) =~= b.take(k)) by {
                assert forall|j: int| 0 <= j < k implies #[trigger] a.take(k)[j] == b.take(k)[j] by {
                    if j > 0 {
                        assert(a1.take(i)[j - 1] == b1.take(i)[j - 1]);
                    }
                }
            }
            assert(a[k] < b[k]);
        }
        if exists|i: int|
            #![trigger a.take(i), b.take(i)]
            0 <= i < a.len() && i < b.len() && a.take(i) == b.take(i) && a[i] < b[i] {
            let i = choose|i: int|
                #![trigger a.take(i), b.take(i)]
                0 <= i < a.len() && i < b.len() && a.take(i) == b.take(i) && a[i] < b[i];
            assert(i > 0);
            let k = i - 1;
            assert(a1.take(k) =~= b1.take(k)) by {
                assert forall|j: int| 0 <= j < k implies #[trigger] a1.take(k)[j] == b1.take(k)[j] by {
                    assert(a.take(i)[j + 1] == b.take(i)[j + 1]);
                }
            }
            assert(a1[k] < b1[k]);
        }
    }
}

/// `lex_le` is total.
pub proof fn lemma_lex_total(a: Seq<char>, b: Seq<char>)
    ensures
        lex_le(a, b) || lex_le(b, a),
    decreases a.len(),
{
    if a.len() > 0 && b.len() > 0 && a[0] == b[0] {
        lemma_lex_total(a.drop_first(), b.drop_first());
    }
}

/// `lex_le` is transitive.
pub proof fn lemma_lex_trans(a: Seq<char>, b: Seq<char>, c: Seq<char>)
    requires
        lex_le(a, b),
        lex_le(b, c),
    ensures
        lex_le(a, c),
    decreases a.len(),
{
    if a.len() > 0 && b.len() > 0 && c.len() > 0 && a[0] == b[0] && b[0] == c[0] {
        lemma_lex_trans(a.drop_first(), b.drop_first(), c.drop_first());
    }
}

impl SortKey for String {
    open spec fn key_le(self, other: Self) -> bool {
        lex_le(self@, other@)
    }

    proof fn lemma_key_le_total(a: Self, b: Self) {
        lemma_lex_total(a@, b@);
    }

    proof fn lemma_key_le_trans(a: Self, b: Self, c: Self) {
        lemma_lex_trans(a@, b@, c@);
    }

    fn le_key(&self, other: &Self) -> (r: bool) {
        let a = chars_of(self.as_str());
        let b = chars_of(other.as_str());
        let mut i: usize = 0;
        proof {
            assert(a@.skip(0) =~= a@);
            assert(b@.skip(0) =~= b@);
        }
        while i < a.len() && i < b.len() && a[i] == b[i]
            invariant
                i <= a@.len(),
                i <= b@.len(),
                lex_le(a@, b@) == lex_le(a@.skip(i as int), b@.skip(i as int)),
            decreases a@.len() - i,
        {
            proof {
                assert(a@.skip(i as int).drop_first() =~= a@.skip(i + 1));
                assert(b@.skip(i as int).drop_first() =~= b@.skip(i + 1));
                assert(a@.skip(i as int)[0] == a@[i as int]);
                assert(b@.skip(i as int)[0] == b@[i as int]);
            }
            i = i + 1;
        }
        if i == a.len() {
            true
        } else if i == b.len() {
            false
        } else {
            proof {
                assert(a@.skip(i as int)[0] == a@[i as int]);
                assert(b@.skip(i as int)[0] == b@[i as int]);
            }
            a[i] < b[i]
        }
    }
}

/// `pi` lists each position `0..n` exactly once.
pub open spec fn is_arrangement(pi: Seq<usize>, n: int) -> bool {
    &&& pi.len() == n
    &&& pi.no_duplicates()
    &&& forall|t: int| 0 <= t < pi.len() ==> #[trigger] pi[t] < n
}

/// Taking positions in the order `pi` sorts the keys `ks`, and positions
/// with equal keys keep their relative order.
pub open spec fn sorts_stably<K: SortKey>(ks: Seq<K>, pi: Seq<usize>) -> bool {
    &&& forall|t: int, u: int|
        #![trigger pi[t], pi[u]]
        0 <= t < u < pi.len() ==> ks[pi[t] as int].key_le(ks[pi[u] as int])
    &&& forall|t: int, u: int|
        #![trigger pi[t], pi[u]]
        0 <= t < u < pi.len() && ks[pi[u] as int].key_le(ks[pi[t] as int]) ==> pi[t] < pi[u]
}

/// `ys` is `xs` sorted stably by the keys `ks`.
pub open spec fn stable_sort_of<K: SortKey>(xs: Seq<Song>, ks: Seq<K>, ys: Seq<Song>) -> bool {
    exists|pi: Seq<usize>|
        #![trigger is_arrangement(pi, xs.len() as int)]
        is_arrangement(pi, xs.len() as int) && sorts_stably(ks, pi) && ys.len() == xs.len()
            && forall|t: int| 0 <= t < ys.len() ==> #[trigger] ys[t] == xs[pi[t] as int]
}

/// `ks` holds, position by position, a key `key` may give for `xs`.
pub open spec fn keys_of<K, F: Fn(&Song) -> K>(key: F, xs: Seq<Song>, ks: Seq<K>) -> bool {
    &&& ks.len() == xs.len()
    &&& forall|i: int| 0 <= i < xs.len() ==> call_ensures(key, (&xs[i],), #[trigger] ks[i])
}

/// The positions `0..keys.len()` arranged so that their keys are sorted,
/// equal keys in their relative order.
pub(crate) fn stable_order<K: SortKey>(keys: &Vec<K>) -> (r: Vec<usize>)
    ensures
        is_arrangement(r@, keys@.len() as int),
        sorts_stably(keys@, r@),
{
    let n = keys.len();
    let mut order: Vec<usize> = Vec::new();
    let mut i: usize = 0;
    while i < n
        invariant
            n == keys@.len(),
            i <= n,
            is_arrangement(order@, i as int),
            sorts_stably(keys@, order@),
        decreases n - i,
    {
        let mut j: usize = 0;
        while j < order.len() && keys[order[j]].le_key(&keys[i])
            invariant
                n == keys@.len(),
                i < n,
                is_arrangement(order@, i as int),
                j <= order@.len(),
                forall|t: int| 0 <= t < j ==> keys@[(#[trigger] order@[t]) as int].key_le(keys@[i as int]),
            decreases order@.len() - j,
        {
            j = j + 1;
        }
        let ghost pi = order@;
        let ghost ki = keys@[i as int];
        proof {
            assert forall|u: int| j <= u < pi.len() implies !keys@[(#[trigger] pi[u]) as int].key_le(ki) by {
                if keys@[pi[u] as int].key_le(ki) {
                    if u != j {
                        K::lemma_key_le_trans(keys@[pi[j as int] as int], keys@[pi[u] as int], ki);
                    }
                }
            }
        }
        order.insert(j, i);
        proof {
            let pi2 = order@;
            assert forall|t: int| 0 <= t < pi2.len() implies #[trigger] pi2[t] == if t < j {
                pi[t]
            } else if t == j {
                i
            } else {
                pi[t - 1]
            } by {}
            assert(pi2.no_duplicates()) by {
                assert forall|a: int, b: int| 0 <= a < pi2.len() && 0 <= b < pi2.len() && a != b implies pi2[a] != pi2[b] by {
                    if a != j && b != j {
                        let a1 = if a < j { a } else { a - 1 };
                        let b1 = if b < j { b } else { b - 1 };
                        assert(pi[a1] != pi[b1]);
                    } else if a == j {
                        let b1 = if b < j { b } else { b - 1 };
                        assert(pi[b1] < i);
                    } else {
                        let a1 = if a < j { a } else { a - 1 };
                        assert(pi[a1] < i);
                    }
                }
            }
            assert forall|t: int, u: int|
                #![trigger pi2[t], pi2[u]]
                0 <= t < u < pi2.len() implies keys@[pi2[t] as int].key_le(keys@[pi2[u] as int]) && (
                keys@[pi2[u] as int].key_le(keys@[pi2[t] as int]) ==> pi2[t] < pi2[u]) by {
                let t1 = if t < j { t } else { t - 1 };
                let u1 = if u < j { u } else { u - 1 };
                if t != j && u != j {
                    assert(pi2[t] == pi[t1] && pi2[u] == pi[u1]);
                    assert(t1 < u1);
                } else if u == j {
                    assert(pi2[t] == pi[t] && pi2[u] == i);
                    assert(pi[t] < i);
                } else {
                    assert(pi2[t] == i && pi2[u] == pi[u1]);
                    assert(!keys@[pi[u1] as int].key_le(ki));
                    K::lemma_key_le_total(ki, keys@[pi[u1] as int]);
                }
            }
        }
        i = i + 1;
    }
    order
}

/// The songs of playlist `p` (looked up in `library`), sorted stably by
/// the key that `key` gives each; `ks` records those keys.
pub fn sort_by<K: SortKey, F: Fn(&Song) -> K>(p: &Playlist, library: &[Song], key: F) -> (r: im::Vector<Song>)
    requires
        forall|s: Song| call_requires(key, (&s,)),
    ensures
        exists|ks: Seq<K>|
            keys_of(key, found_songs(id_vector_items(p.songs), library@), ks) && #[trigger] stable_sort_of(
                found_songs(id_vector_items(p.songs), library@),
                ks,
                song_vector_items(r),
            ),
{
    let songs = playlist_songs(p, library);
    let n = songs.len();
    let mut keys: Vec<K> = Vec::new();
    let mut i: usize = 0;
    while i < n
        invariant
            forall|s: Song| call_requires(key, (&s,)),
            n == songs@.len(),
            i <= n,
            keys@.len() == i,
            forall|j: int| 0 <= j < i ==> call_ensures(key, (&songs@[j],), #[trigger] keys@[j]),
        decreases n - i,
    {
        let k = key(&songs[i]);
        keys.push(k);
        i = i + 1;
    }
    let order = stable_order(&keys);
    let mut r = song_vector_new();
    let mut t: usize = 0;
    while t < n
        invariant
            n == songs@.len(),
            is_arrangement(order@, n as int),
            t <= n,
            song_vector_items(r).len() == t,
            forall|u: int| 0 <= u < t ==> #[trigger] song_vector_items(r)[u] == songs@[order@[u] as int],
        decreases n - t,
    {
        let ghost before = song_vector_items(r);
        song_vector_push_back(&mut r, songs[order[t]].clone());
        proof {
            assert forall|u: int| 0 <= u < t + 1 implies #[trigger] song_vector_items(r)[u] == songs@[order@[u] as int] by {
                if u < t {
                    assert(song_vector_items(r)[u] == before[u]);
                }
            }
        }
        t = t + 1;
    }
    proof {
        assert(keys_of(key, songs@, keys@));
        assert(is_arrangement(order@, songs@.len() as int));
        assert(stable_sort_of(songs@, keys@, song_vector_items(r)));
    }
    r
}

/// A playlist created under `name` takes the name: creating another one
/// whose name equals it up to case and surrounding white space is refused.
pub proof fn lemma_created_name_refused(
    m: Map<PlaylistId, PlaylistModel>,
    name: Seq<char>,
    id: PlaylistId,
    other: Seq<char>,
)
    requires
        name_accepted(m, name),
        lowercase(trimmed(other)) == lowercase(trimmed(name)),
    ensures
        !name_accepted(m.insert(id, (id, trimmed(name), Seq::<SongId>::empty())), other),
{
    let m2 = m.insert(id, (id, trimmed(name), Seq::<SongId>::empty()));
    lemma_trimmed_idempotent(name);
    assert(m2.contains_key(id) && lowercase(trimmed(m2[id].1)) == lowercase(trimmed(other)));
}

/// Removing a song that was just appended to a playlist that did not hold
/// it gives the playlist back as it was.
pub proof fn lemma_remove_undoes_add(m: Map<PlaylistId, PlaylistModel>, pid: PlaylistId, sid: SongId)
    requires
        m.contains_key(pid) ==> !m[pid].2.contains(sid),
    ensures
        with_song_removed(with_song_added(m, pid, sid), pid, sid) == m,
{
    if m.contains_key(pid) {
        let ids = m[pid].2;
        lemma_drop_id(ids, sid);
        assert(ids.push(sid).drop_last() =~= ids);
        assert(drop_id(ids.push(sid), sid) == drop_id(ids, sid));
        assert(with_song_removed(with_song_added(m, pid, sid), pid, sid) =~= m);
    }
}

/// `m` after appending each of `sids` in turn to playlist `pid`.
pub open spec fn with_songs_added(m: Map<PlaylistId, PlaylistModel>, pid: PlaylistId, sids: Seq<SongId>) -> Map<
    PlaylistId,
    PlaylistModel,
>
    decreases sids.len(),
{
    if sids.len() == 0 {
        m
    } else {
        with_song_added(with_songs_added(m, pid, sids.drop_last()), pid, sids.last())
    }
}

/// No append is lost: appending songs one after another leaves all of
/// them, in order, after the songs the playlist held; other playlists stay
/// as they were.
pub proof fn lemma_adds_accumulate(m: Map<PlaylistId, PlaylistModel>, pid: PlaylistId, sids: Seq<SongId>)
    ensures
        m.contains_key(pid) ==> with_songs_added(m, pid, sids) == m.insert(
            pid,
            with_songs(m[pid], m[pid].2 + sids),
        ),
        !m.contains_key(pid) ==> with_songs_added(m, pid, sids) == m,
    decreases sids.len(),
{
    if sids.len() > 0 {
        lemma_adds_accumulate(m, pid, sids.drop_last());
        if m.contains_key(pid) {
            assert(m[pid].2 + sids.drop_last() + seq![sids.last()] =~= m[pid].2 + sids);
            assert((m[pid].2 + sids.drop_last()).push(sids.last()) =~= m[pid].2 + sids);
            assert(with_songs_added(m, pid, sids) =~= m.insert(pid, with_songs(m[pid], m[pid].2 + sids)));
        }
    } else {
        if m.contains_key(pid) {
            assert(m[pid].2 + sids =~= m[pid].2);
            assert(m.insert(pid, with_songs(m[pid], m[pid].2 + sids)) =~= m);
        }
    }
}

/// Every playlist is stored under its own id.
pub open spec fn keyed(m: Map<PlaylistId, PlaylistModel>) -> bool {
    forall|k: PlaylistId| #[trigger] m.contains_key(k) ==> m[k].0 == k
}

/// Every playlist operation keeps playlists stored under their own ids.
pub proof fn lemma_operations_keep_keys(
    m: Map<PlaylistId, PlaylistModel>,
    pid: PlaylistId,
    sid: SongId,
    songs: Seq<SongId>,
    name: Seq<char>,
)
    requires
        keyed(m),
    ensures
        keyed(m.insert(pid, (pid, trimmed(name), Seq::<SongId>::empty()))),
        keyed(m.remove(pid)),
        keyed(with_song_added(m, pid, sid)),
        keyed(with_song_removed(m, pid, sid)),
        m.contains_key(pid) ==> keyed(m.insert(pid, with_songs(m[pid], songs))),
{
}

/// Saving and loading give the playlists back: rebuilding from a listing
/// of every playlist, each stored under its own id, yields the same
/// playlists.
pub proof fn lemma_snapshot_round_trip(st: State, saved: Seq<Playlist>, ks: Seq<PlaylistId>)
    requires
        keyed(st@.0),
        lists_entries(saved, ks, playlist_table(st.playlists)),
    ensures
        playlists_by_id(saved) == st@.0,
{
    let m = st@.0;
    let t = playlist_table(st.playlists);
    assert forall|i: int|
        #![trigger saved[i]]
        0 <= i < ks.len() implies m.contains_key(ks[i]) && (saved[i]@ == m[ks[i]]) by {
        assert(ks.contains(ks[i]));
        assert(ks.to_set().contains(ks[i]));
    }
    lemma_playlists_by_id_prefix(saved, ks, m, saved.len() as int);
    assert(saved.take(saved.len() as int) =~= saved);
    assert(ks.take(ks.len() as int) =~= ks);
    assert forall|k: PlaylistId| #[trigger] m.contains_key(k) implies ks.to_set().contains(k) by {
        assert(t.dom().contains(k));
    }
    assert(playlists_by_id(saved) =~= m);
}

/// Each playlist of `saved` is the one of `m` under the key at its position.
pub open spec fn holds_models(saved: Seq<Playlist>, ks: Seq<PlaylistId>, m: Map<PlaylistId, PlaylistModel>) -> bool {
    forall|i: int|
        #![trigger saved[i]]
        0 <= i < ks.len() ==> m.contains_key(ks[i]) && (saved[i]@ == m[ks[i]])
}

/// Rebuilding from the first `n` playlists of a listing gives the
/// playlists under the first `n` keys.
pub proof fn lemma_playlists_by_id_prefix(
    saved: Seq<Playlist>,
    ks: Seq<PlaylistId>,
    m: Map<PlaylistId, PlaylistModel>,
    n: int,
)
    requires
        0 <= n <= saved.len(),
        ks.len() == saved.len(),
        keyed(m),
        holds_models(saved, ks, m),
    ensures
        playlists_by_id(saved.take(n)) == m.restrict(ks.take(n).to_set()),
    decreases n,
{
    if n == 0 {
        assert(saved.take(0) =~= Seq::<Playlist>::empty());
        assert(m.restrict(ks.take(0).to_set()) =~= Map::<PlaylistId, PlaylistModel>::empty());
    } else {
        lemma_playlists_by_id_prefix(saved, ks, m, n - 1);
        assert(saved.take(n).drop_last() =~= saved.take(n - 1));
        assert(saved.take(n).last() == saved[n - 1]);
        assert(m.contains_key(ks[n - 1]) && saved[n - 1]@ == m[ks[n - 1]]);
        assert(saved[n - 1].id == ks[n - 1]);
        let kn = ks.take(n);
        let kp = ks.take(n - 1);
        assert forall|k: PlaylistId| #[trigger] kn.to_set().contains(k) == (kp.to_set().contains(k) || k
            == ks[n - 1]) by {
            if kn.contains(k) {
                let j = choose|j: int| 0 <= j < kn.len() && kn[j] == k;
                if j < n - 1 {
                    assert(kp[j] == k);
                }
            }
            if kp.contains(k) {
                let j = choose|j: int| 0 <= j < kp.len() && kp[j] == k;
                assert(kn[j] == k);
            }
            if k == ks[n - 1] {
                assert(kn[n - 1] == k);
            }
        }
        assert(playlists_by_id(saved.take(n)) =~= m.restrict(kn.to_set()));
    }
}

} // verus!
