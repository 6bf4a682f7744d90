//! The song library: songs keyed by id plus a secondary index from genre
//! to the ids filed under it, and the three searches over them.

use std::collections::HashMap;
use vstd::hash_map::StringHashMap;
use vstd::prelude::*;

use crate::domain::{Song, SongId};
use crate::playback::Playback;
use crate::text::{chars_of, contains, is_infix, lowercase, occurs_at, to_lowercase};

verus! {

broadcast use vstd::std_specs::hash::group_hash_axioms;

/// The index that the genre table `b` stands for: genre to the ids filed
/// under it, in filing order.
pub open spec fn index_of(b: Map<Seq<char>, Vec<SongId>>) -> Map<Seq<char>, Seq<SongId>> {
    b.map_values(|v: Vec<SongId>| v@)
}

/// `ids` without every occurrence of `id`, order kept.
pub open spec fn drop_id(ids: Seq<SongId>, id: SongId) -> Seq<SongId>
    decreases ids.len(),
{
    if ids.len() == 0 {
        ids
    } else if ids.last() == id {
        drop_id(ids.drop_last(), id)
    } else {
        drop_id(ids.drop_last(), id).push(ids.last())
    }
}

/// The songs that `ids` name, in order, skipping ids that `songs` lacks.
pub open spec fn songs_for(ids: Seq<SongId>, songs: Map<SongId, Song>) -> Seq<Song>
    decreases ids.len(),
{
    if ids.len() == 0 {
        Seq::empty()
    } else if songs.contains_key(ids.last()) {
        songs_for(ids.drop_last(), songs).push(songs[ids.last()])
    } else {
        songs_for(ids.drop_last(), songs)
    }
}

/// `s` with its id replaced by `id`.
pub open spec fn with_id(s: Song, id: SongId) -> Song {
    Song { id, ..s }
}

/// `r` lists, position by position, the songs under the keys `ks`: each key
/// of `keep` exactly once, in some order.
pub open spec fn lists_songs(r: Seq<Song>, ks: Seq<SongId>, songs: Map<SongId, Song>, keep: Set<
    SongId,
>) -> bool {
    &&& ks.len() == r.len()
    &&& ks.no_duplicates()
    &&& ks.to_set() == keep
    &&& forall|i: int| 0 <= i < ks.len() ==> songs.contains_key(ks[i]) && #[trigger] r[i] == songs[ks[i]]
}

/// Membership after a push, and when a push keeps a sequence free of
/// duplicates.
pub proof fn lemma_push_contains(s: Seq<SongId>, a: SongId)
    ensures
        forall|x: SongId| #[trigger] s.push(a).contains(x) <==> s.contains(x) || x == a,
        s.no_duplicates() && !s.contains(a) ==> s.push(a).no_duplicates(),
{
    let t = s.push(a);
    assert forall|x: SongId| #[trigger] t.contains(x) <==> s.contains(x) || x == a by {
        if s.contains(x) {
            let k = choose|k: int| 0 <= k < s.len() && s[k] == x;
            assert(t[k] == x);
        }
        if x == a {
            assert(t[s.len() as int] == a);
        }
        if t.contains(x) {
            let k = choose|k: int| 0 <= k < t.len() && t[k] == x;
            if k < s.len() {
                assert(s[k] == x);
            }
        }
    }
    if s.no_duplicates() && !s.contains(a) {
        assert forall|i: int, j: int| 0 <= i < t.len() && 0 <= j < t.len() && i != j implies t[i]
            != t[j] by {
            if i < s.len() && j < s.len() {
            } else if i < s.len() {
                assert(s.contains(s[i]));
            } else {
                assert(s.contains(s[j]));
            }
        }
    }
}

/// Membership in `drop_id`: what was there, but `id`.
pub proof fn lemma_drop_id(ids: Seq<SongId>, id: SongId)
    ensures
        forall|x: SongId| #[trigger] drop_id(ids, id).contains(x) <==> ids.contains(x) && x != id,
        ids.no_duplicates() ==> drop_id(ids, id).no_duplicates(),
        !ids.contains(id) ==> drop_id(ids, id) == ids,
    decreases ids.len(),
{
    if ids.len() > 0 {
        let rest = ids.drop_last();
        let a = ids.last();
        lemma_drop_id(rest, id);
        assert(ids =~= rest.push(a));
        lemma_push_contains(rest, a);
        lemma_push_contains(drop_id(rest, id), a);
        if ids.no_duplicates() {
            assert(rest.no_duplicates()) by {
                assert forall|i: int, j: int|
                    0 <= i < rest.len() && 0 <= j < rest.len() && i != j implies rest[i] != rest[j] by {
                    assert(ids[i] == rest[i] && ids[j] == rest[j]);
                }
            }
            assert(!rest.contains(a)) by {
                if rest.contains(a) {
                    let k = choose|k: int| 0 <= k < rest.len() && rest[k] == a;
                    assert(ids[k] == ids[ids.len() - 1]);
                }
            }
        }
    }
}

/// The index after the song stored under `id` (if any) is dropped from
/// the bucket of its genre; a bucket left empty is dropped too.
pub open spec fn index_without(ix: Map<Seq<char>, Seq<SongId>>, songs: Map<SongId, Song>, id: SongId) -> Map<
    Seq<char>,
    Seq<SongId>,
> {
    if !songs.contains_key(id) || !ix.contains_key(songs[id].genre@) {
        ix
    } else {
        let g = songs[id].genre@;
        let rest = drop_id(ix[g], id);
        if rest.len() == 0 {
            ix.remove(g)
        } else {
            ix.insert(g, rest)
        }
    }
}

/// `ids` without `id`.
fn without_id(ids: &Vec<SongId>, id: SongId) -> (r: Vec<SongId>)
    ensures
        r@ == drop_id(ids@, id),
{
    let mut r: Vec<SongId> = Vec::new();
    let mut i: usize = 0;
    while i < ids.len()
        invariant
            i <= ids@.len(),
            r@ == drop_id(ids@.take(i as int), id),
        decreases ids@.len() - i,
    {
        assert(ids@.take(i + 1).drop_last() =~= ids@.take(i as int));
        if ids[i] != id {
            r.push(ids[i]);
        }
        i = i + 1;
    }
    assert(ids@.take(ids@.len() as int) =~= ids@);
    r
}

/// The index `ix` files exactly the ids of `s`, each once, under the
/// genre of its song in `m`, and has no empty entry.
pub open spec fn files_exactly(ix: Map<Seq<char>, Seq<SongId>>, m: Map<SongId, Song>, s: Set<SongId>) -> bool {
    &&& forall|g: Seq<char>| #[trigger] ix.contains_key(g) ==> ix[g].no_duplicates() && ix[g].len() > 0
    &&& forall|g: Seq<char>, x: SongId|
        ix.contains_key(g) && #[trigger] ix[g].contains(x) ==> s.contains(x) && m.contains_key(x)
            && m[x].genre@ == g
    &&& forall|x: SongId| #[trigger]
        s.contains(x) ==> m.contains_key(x) && ix.contains_key(m[x].genre@) && ix[m[x].genre@].contains(
            x,
        )
}

/// `ix` with `x` filed at the end of the entry for `g`.
pub open spec fn filed(ix: Map<Seq<char>, Seq<SongId>>, g: Seq<char>, x: SongId) -> Map<
    Seq<char>,
    Seq<SongId>,
> {
    ix.insert(
        g,
        if ix.contains_key(g) {
            ix[g].push(x)
        } else {
            seq![x]
        },
    )
}

/// Filing an id that was not filed yet keeps the index exact.
pub proof fn lemma_file_fresh(ix: Map<Seq<char>, Seq<SongId>>, m: Map<SongId, Song>, s: Set<SongId>, x: SongId)
    requires
        files_exactly(ix, m, s),
        m.contains_key(x),
        !s.contains(x),
    ensures
        files_exactly(filed(ix, m[x].genre@, x), m, s.insert(x)),
{
    let g0 = m[x].genre@;
    let ix2 = filed(ix, g0, x);
    assert(forall|g: Seq<char>| #[trigger] ix.contains_key(g) ==> !ix[g].contains(x));
    if ix.contains_key(g0) {
        lemma_push_contains(ix[g0], x);
    } else {
        lemma_push_contains(Seq::<SongId>::empty(), x);
        assert(seq![x] =~= Seq::<SongId>::empty().push(x));
    }
    assert forall|g: Seq<char>, y: SongId|
        ix2.contains_key(g) && #[trigger] ix2[g].contains(y) implies s.insert(x).contains(y)
        && m.contains_key(y) && m[y].genre@ == g by {
        if g != g0 {
            assert(ix[g].contains(y));
        } else if y != x && ix.contains_key(g0) {
            assert(ix[g].contains(y));
        }
    }
    assert forall|y: SongId| #[trigger] s.insert(x).contains(y) implies m.contains_key(y)
        && ix2.contains_key(m[y].genre@) && ix2[m[y].genre@].contains(y) by {
        if y != x {
            assert(s.contains(y));
            assert(ix[m[y].genre@].contains(y));
        }
    }
}

/// Exactness only looks at the songs of the filed ids.
pub proof fn lemma_files_other_map(
    ix: Map<Seq<char>, Seq<SongId>>,
    m: Map<SongId, Song>,
    m2: Map<SongId, Song>,
    s: Set<SongId>,
)
    requires
        files_exactly(ix, m, s),
        forall|y: SongId| #[trigger] s.contains(y) ==> m2.contains_key(y) && m2[y] == m[y],
    ensures
        files_exactly(ix, m2, s),
{
    assert forall|g: Seq<char>, y: SongId|
        ix.contains_key(g) && #[trigger] ix[g].contains(y) implies s.contains(y) && m2.contains_key(
        y,
    ) && m2[y].genre@ == g by {}
    assert forall|y: SongId| #[trigger] s.contains(y) implies m2.contains_key(y) && ix.contains_key(
        m2[y].genre@,
    ) && ix[m2[y].genre@].contains(y) by {}
}

/// Unfiling a stored song keeps the index exact for the songs that remain.
pub proof fn lemma_unfile(ix: Map<Seq<char>, Seq<SongId>>, m: Map<SongId, Song>, x: SongId)
    requires
        files_exactly(ix, m, m.dom()),
        m.contains_key(x),
    ensures
        files_exactly(index_without(ix, m, x), m.remove(x), m.remove(x).dom()),
{
    let g0 = m[x].genre@;
    let m2 = m.remove(x);
    let ix2 = index_without(ix, m, x);
    assert(m.dom().contains(x));
    assert(ix.contains_key(g0) && ix[g0].contains(x));
    lemma_drop_id(ix[g0], x);
    assert forall|g: Seq<char>| #[trigger] ix2.contains_key(g) implies ix2[g].no_duplicates() by {
        if g != g0 {
            assert(ix[g] == ix2[g]);
        }
    }
    assert forall|g: Seq<char>, y: SongId|
        ix2.contains_key(g) && #[trigger] ix2[g].contains(y) implies m2.dom().contains(y)
        && m2.contains_key(y) && m2[y].genre@ == g by {
        if g != g0 {
            assert(ix[g].contains(y));
        } else {
            assert(ix[g0].contains(y));
        }
    }
    assert forall|y: SongId| #[trigger] m2.dom().contains(y) implies m2.contains_key(y)
        && ix2.contains_key(m2[y].genre@) && ix2[m2[y].genre@].contains(y) by {
        assert(m.dom().contains(y));
        assert(ix[m[y].genre@].contains(y));
        if m[y].genre@ == g0 {
            assert(drop_id(ix[g0], x).contains(y));
        }
    }
}

/// The title search keeps `s`: its lower-cased title contains `q`, the
/// lower-cased query.
pub open spec fn title_has(s: Song, q: Seq<char>) -> bool {
    is_infix(q, lowercase(s.title@))
}

/// The year search keeps `s`: its year lies in `from..=to`.
pub open spec fn year_within(s: Song, from: u16, to: u16) -> bool {
    from <= s.year && s.year <= to
}

/// Which songs a pass over the library keeps.
enum Criterion {
    Every,
    TitleHas(Vec<char>),
    YearWithin(u16, u16),
}

spec fn keeps(c: Criterion, s: Song) -> bool {
    match c {
        Criterion::Every => true,
        Criterion::TitleHas(q) => title_has(s, q@),
        Criterion::YearWithin(from, to) => year_within(s, from, to),
    }
}

fn check(c: &Criterion, s: &Song) -> (r: bool)
    ensures
        r == keeps(*c, *s),
{
    match c {
        Criterion::Every => true,
        Criterion::TitleHas(q) => {
            let t = to_lowercase(s.title.as_str());
            let tc = chars_of(t.as_str());
            contains(&tc, q)
        },
        Criterion::YearWithin(from, to) => *from <= s.year && s.year <= *to,
    }
}

/// The ids in `songs` whose songs satisfy the criterion.
spec fn kept_ids(songs: Map<SongId, Song>, c: Criterion) -> Set<SongId> {
    Set::new(|k: SongId| songs.contains_key(k) && keeps(c, songs[k]))
}

/// Files `id` at the end of the entry for `genre`, creating it if needed.
fn file_into(b: &mut StringHashMap<Vec<SongId>>, genre: &String, id: SongId)
    ensures
        index_of(final(b)@) == filed(index_of(old(b)@), genre@, id),
{
    let mut ids: Vec<SongId> = match b.get(genre.as_str()) {
        Some(v) => v.clone(),
        None => Vec::new(),
    };
    ids.push(id);
    b.insert(genre.clone(), ids);
    proof {
        assert(index_of(b@) =~= filed(index_of(old(b)@), genre@, id));
    }
}

/// The map that inserting the songs of `s` one by one under their ids
/// gives: a later song replaces an earlier one with the same id.
pub open spec fn songs_by_id(s: Seq<Song>) -> Map<SongId, Song>
    decreases s.len(),
{
    if s.len() == 0 {
        Map::empty()
    } else {
        songs_by_id(s.drop_last()).insert(s.last().id, s.last())
    }
}

/// The ids of the stored songs whose title contains the lower-cased query.
pub open spec fn ids_with_title(songs: Map<SongId, Song>, q: Seq<char>) -> Set<SongId> {
    Set::new(|k: SongId| songs.contains_key(k) && title_has(songs[k], q))
}

/// The ids of the stored songs whose year lies in `from..=to`.
pub open spec fn ids_in_years(songs: Map<SongId, Song>, from: u16, to: u16) -> Set<SongId> {
    Set::new(|k: SongId| songs.contains_key(k) && year_within(songs[k], from, to))
}

/// The ids of the stored songs of genre `g`.
pub open spec fn ids_with_genre(songs: Map<SongId, Song>, g: Seq<char>) -> Set<SongId> {
    Set::new(|k: SongId| songs.contains_key(k) && songs[k].genre@ == g)
}

/// `songs_for` on ids that are all stored: one song per id, in order.
pub proof fn lemma_songs_for_present(ids: Seq<SongId>, songs: Map<SongId, Song>)
    requires
        forall|i: int| 0 <= i < ids.len() ==> songs.contains_key(#[trigger] ids[i]),
    ensures
        songs_for(ids, songs).len() == ids.len(),
        forall|i: int| 0 <= i < ids.len() ==> #[trigger] songs_for(ids, songs)[i] == songs[ids[i]],
    decreases ids.len(),
{
    if ids.len() > 0 {
        let rest = ids.drop_last();
        assert forall|i: int| 0 <= i < rest.len() implies songs.contains_key(#[trigger] rest[i]) by {
            assert(rest[i] == ids[i]);
        }
        lemma_songs_for_present(rest, songs);
        assert(songs.contains_key(ids[ids.len() - 1]));
    }
}

/// Rebuilding from the first `n` songs of a listing gives the songs under
/// the first `n` keys.
pub proof fn lemma_songs_by_id_prefix(saved: Seq<Song>, ks: Seq<SongId>, songs: Map<SongId, Song>, n: int)
    requires
        0 <= n <= saved.len(),
        lists_songs(saved, ks, songs, songs.dom()),
        forall|k: SongId| #[trigger] songs.contains_key(k) ==> songs[k].id == k,
    ensures
        songs_by_id(saved.take(n)) == songs.restrict(ks.take(n).to_set()),
    decreases n,
{
    if n == 0 {
        assert(saved.take(0) =~= Seq::<Song>::empty());
        assert(songs.restrict(ks.take(0).to_set()) =~= Map::<SongId, Song>::empty());
    } else {
        lemma_songs_by_id_prefix(saved, ks, songs, n - 1);
        assert(saved.take(n).drop_last() =~= saved.take(n - 1));
        assert(saved.take(n).last() == saved[n - 1]);
        assert(songs.contains_key(ks[n - 1]) && saved[n - 1] == songs[ks[n - 1]]);
        let kn = ks.take(n);
        let kp = ks.take(n - 1);
        assert forall|k: SongId| #[trigger] kn.to_set().contains(k) == (kp.to_set().contains(k) || k == ks[n - 1]) by {
            if kn.contains(k) {
                let j = choose|j: int| 0 <= j < kn.len() && kn[j] == k;
                if j < n - 1 {
                    assert(kp[j] == k);
                }
            }
            if kp.contains(k) {
                let j = choose|j: int| 0 <= j < kp.len() && kp[j] == k;
                assert(kn[j] == k);
            }
            if k == ks[n - 1] {
                assert(ks.take(n)[n - 1] == k);
            }
        }
        assert(songs_by_id(saved.take(n)) =~= songs.restrict(ks.take(n).to_set()));
    }
}

/// Removing a song right after adding it (while it is not playing) gives
/// the library back: the same songs and the same genre index.
pub proof fn lemma_remove_undoes_add(
    songs: Map<SongId, Song>,
    ix: Map<Seq<char>, Seq<SongId>>,
    next: SongId,
    song: Song,
)
    requires
        files_exactly(ix, songs, songs.dom()),
        forall|id: SongId| #[trigger] songs.contains_key(id) ==> id < next,
    ensures
        songs.insert(next, with_id(song, next)).remove(next) == songs,
        index_without(
            filed(ix, song.genre@, next),
            songs.insert(next, with_id(song, next)),
            next,
        ) == ix,
{
    let g = song.genre@;
    let s2 = songs.insert(next, with_id(song, next));
    let ix2 = filed(ix, g, next);
    assert(!songs.contains_key(next));
    assert(s2.remove(next) =~= songs);
    assert(s2[next].genre@ == g);
    if ix.contains_key(g) {
        assert(!ix[g].contains(next));
        lemma_drop_id(ix[g], next);
        assert(ix[g].push(next).drop_last() =~= ix[g]);
        assert(drop_id(ix2[g], next) == ix[g]);
        assert(ix2.insert(g, ix[g]) =~= ix);
        assert(index_without(ix2, s2, next) =~= ix);
    } else {
        assert(seq![next].drop_last() =~= Seq::<SongId>::empty());
        assert(seq![next].last() == next);
        assert(drop_id(Seq::<SongId>::empty(), next) =~= Seq::<SongId>::empty());
        assert(drop_id(seq![next], next) =~= Seq::<SongId>::empty());
        assert(index_without(ix2, s2, next) =~= ix);
    }
}

/// What a removal was refused for.
#[derive(Clone, Copy, Debug, PartialEq, Eq, Structural)]
pub enum LibraryError {
    /// The song is being played and cannot be deleted.
    CannotDeletePlaying,
}

/// The code a library error is reported with.
pub open spec fn error_code(e: LibraryError) -> Seq<char> {
    match e {
        LibraryError::CannotDeletePlaying => "CANNOT_DELETE_PLAYING"@,
    }
}

impl LibraryError {
    /// The error's code, as clients receive it.
    pub fn to_string(&self) -> (r: String)
        ensures
            r@ == error_code(*self),
    {
        match self {
            LibraryError::CannotDeletePlaying => String::from_str("CANNOT_DELETE_PLAYING"),
        }
    }
}

/// The next id a loaded library hands out: the saved one, except that ids
/// start at 1.
pub open spec fn first_free_id(saved: u64) -> u64 {
    if saved == 0 {
        1
    } else {
        saved
    }
}

/// The ids that `ix` files under genre `g` (none when it has no entry).
pub open spec fn genre_entry(ix: Map<Seq<char>, Seq<SongId>>, g: Seq<char>) -> Seq<SongId> {
    if ix.contains_key(g) {
        ix[g]
    } else {
        Seq::empty()
    }
}

/// An index that files exactly the stored songs holds, under each genre,
/// every stored song of that genre exactly once.
pub proof fn lemma_genre_entry_exact(ix: Map<Seq<char>, Seq<SongId>>, m: Map<SongId, Song>, g: Seq<char>)
    requires
        files_exactly(ix, m, m.dom()),
    ensures
        genre_entry(ix, g).no_duplicates(),
        genre_entry(ix, g).to_set() == ids_with_genre(m, g),
{
    let e = genre_entry(ix, g);
    assert forall|k: SongId| #[trigger] e.to_set().contains(k) implies ids_with_genre(m, g).contains(k) by {
        assert(e.contains(k));
        assert(ix.contains_key(g) && ix[g].contains(k));
    }
    assert forall|k: SongId| #[trigger] ids_with_genre(m, g).contains(k) implies e.to_set().contains(k) by {
        assert(m.dom().contains(k));
        assert(ix.contains_key(m[k].genre@) && ix[m[k].genre@].contains(k));
    }
    assert(e.to_set() =~= ids_with_genre(m, g));
}

/// How many times `a` occurs in `s`.
pub open spec fn count_of<A>(s: Seq<A>, a: A) -> nat
    decreases s.len(),
{
    if s.len() == 0 {
        0
    } else {
        count_of(s.drop_last(), a) + if s.last() == a {
            1nat
        } else {
            0nat
        }
    }
}

/// A value that does not occur is counted zero times.
pub proof fn lemma_count_absent<A>(s: Seq<A>, a: A)
    requires
        !s.contains(a),
    ensures
        count_of(s, a) == 0,
    decreases s.len(),
{
    if s.len() > 0 {
        let init = s.drop_last();
        assert(!init.contains(a)) by {
            if init.contains(a) {
                let i = choose|i: int| 0 <= i < init.len() && init[i] == a;
                assert(s[i] == a);
            }
        }
        lemma_count_absent(init, a);
        assert(s[s.len() - 1] != a);
    }
}

/// With each song stored under its own id, the songs that `ids` name hold
/// the song of `k` as many times as `ids` holds `k`.
pub proof fn lemma_count_songs_for(ids: Seq<SongId>, songs: Map<SongId, Song>, k: SongId)
    requires
        forall|j: SongId| #[trigger] songs.contains_key(j) ==> songs[j].id == j,
        songs.contains_key(k),
    ensures
        count_of(songs_for(ids, songs), songs[k]) == count_of(ids, k),
    decreases ids.len(),
{
    if ids.len() > 0 {
        let init = ids.drop_last();
        lemma_count_songs_for(init, songs, k);
        let last = ids.last();
        if songs.contains_key(last) {
            let r = songs_for(init, songs).push(songs[last]);
            assert(r.drop_last() =~= songs_for(init, songs));
            assert(songs[last] == songs[k] ==> last == k);
        }
    }
}

/// Every id at or above `next` that the index files is stored, under the
/// genre of its song: ids not handed out yet are never filed stale.
pub open spec fn files_fresh_ids(ix: Map<Seq<char>, Seq<SongId>>, songs: Map<SongId, Song>, next: u64) -> bool {
    forall|g: Seq<char>, x: SongId|
        ix.contains_key(g) && #[trigger] ix[g].contains(x) && x >= next ==> songs.contains_key(x)
            && songs[x].genre@ == g
}

/// A change to a library's contents: adding a song under the next id, or
/// removing the song stored under an id. (A refused removal changes
/// nothing, so it is no step.)
pub enum LibraryStep {
    Add(Song),
    Remove(SongId),
}

/// The songs, the genre index and the next id of a library.
pub type LibraryModel = (Map<SongId, Song>, Map<Seq<char>, Seq<SongId>>, u64);

/// What one step does, as `add_song` and `remove_song` state it.
pub open spec fn step(m: LibraryModel, s: LibraryStep) -> LibraryModel {
    match s {
        LibraryStep::Add(song) => (
            m.0.insert(m.2, with_id(song, m.2)),
            filed(m.1, song.genre@, m.2),
            (m.2 + 1) as u64,
        ),
        LibraryStep::Remove(id) => (m.0.remove(id), index_without(m.1, m.0, id), m.2),
    }
}

/// The library after the steps `steps`, in order, from `m`.
pub open spec fn after_steps(m: LibraryModel, steps: Seq<LibraryStep>) -> LibraryModel
    decreases steps.len(),
{
    if steps.len() == 0 {
        m
    } else {
        step(after_steps(m, steps.drop_last()), steps.last())
    }
}

/// Every add of `steps` is made while its id is not stored (and below the
/// largest id, as `add_song` requires).
pub open spec fn fresh_adds(m: LibraryModel, steps: Seq<LibraryStep>) -> bool
    decreases steps.len(),
{
    if steps.len() == 0 {
        true
    } else {
        let before = after_steps(m, steps.drop_last());
        &&& fresh_adds(m, steps.drop_last())
        &&& (steps.last() is Add ==> !before.0.contains_key(before.2) && before.2 < u64::MAX)
    }
}

/// A library whose index files exactly its songs keeps it so through any
/// sequence of adds (each under an id not stored yet) and removals; so its
/// genre search keeps giving every song of the genre exactly once.
pub proof fn lemma_steps_keep_index(m: LibraryModel, steps: Seq<LibraryStep>)
    requires
        files_exactly(m.1, m.0, m.0.dom()),
        fresh_adds(m, steps),
    ensures
        files_exactly(after_steps(m, steps).1, after_steps(m, steps).0, after_steps(m, steps).0.dom()),
        forall|g: Seq<char>|
            #![trigger genre_entry(after_steps(m, steps).1, g)]
            genre_entry(after_steps(m, steps).1, g).no_duplicates() && genre_entry(after_steps(m, steps).1, g).to_set()
                == ids_with_genre(after_steps(m, steps).0, g),
    decreases steps.len(),
{
    if steps.len() > 0 {
        let init = steps.drop_last();
        lemma_steps_keep_index(m, init);
        let b = after_steps(m, init);
        match steps.last() {
            LibraryStep::Add(song) => {
                let id = b.2;
                let s2 = b.0.insert(id, with_id(song, id));
                lemma_files_other_map(b.1, b.0, s2, b.0.dom());
                lemma_file_fresh(b.1, s2, b.0.dom(), id);
                assert(b.0.dom().insert(id) =~= s2.dom());
            },
            LibraryStep::Remove(id) => {
                if b.0.contains_key(id) {
                    lemma_unfile(b.1, b.0, id);
                } else {
                    assert(b.0.remove(id) =~= b.0);
                }
            },
        }
    }
    let a = after_steps(m, steps);
    assert forall|g: Seq<char>|
        #![trigger genre_entry(a.1, g)]
        genre_entry(a.1, g).no_duplicates() && genre_entry(a.1, g).to_set() == ids_with_genre(a.0, g) by {
        lemma_genre_entry_exact(a.1, a.0, g);
    }
}

/// Removing an id from a list keeps exactly the other ids, in their
/// order: it is the list filtered by "is not that id".
pub proof fn lemma_drop_id_filters(ids: Seq<SongId>, id: SongId)
    ensures
        drop_id(ids, id) == ids.filter(|x: SongId| x != id),
    decreases ids.len(),
{
    let f = |x: SongId| x != id;
    reveal(Seq::filter);
    if ids.len() > 0 {
        lemma_drop_id_filters(ids.drop_last(), id);
        assert(ids.drop_last().filter(f) == drop_id(ids.drop_last(), id));
        assert(ids.filter(f) == if f(ids.last()) {
            ids.drop_last().filter(f).push(ids.last())
        } else {
            ids.drop_last().filter(f)
        });
    } else {
        assert(ids.filter(f) == ids);
    }
    assert(ids.filter(f) == ids.filter(|x: SongId| x != id));
}

/// The title search keeps a stored song exactly when the lower-cased
/// query is a run of consecutive characters of its lower-cased title.
pub proof fn lemma_title_search(songs: Map<SongId, Song>, q: Seq<char>, k: SongId)
    ensures
        ids_with_title(songs, q).contains(k) <==> songs.contains_key(k) && exists|j: int, e: int|
            0 <= j && e == j + q.len() && e <= lowercase(songs[k].title@).len()
                && #[trigger] lowercase(songs[k].title@).subrange(j, e) == q,
{
    if songs.contains_key(k) {
        let t = lowercase(songs[k].title@);
        if ids_with_title(songs, q).contains(k) {
            let j = choose|j: int| occurs_at(t, q, j);
            assert(t.subrange(j, j + q.len()) == q);
        }
        if exists|j: int, e: int| 0 <= j && e == j + q.len() && e <= t.len() && #[trigger] t.subrange(j, e) == q {
            let (j, e) = choose|j: int, e: int|
                0 <= j && e == j + q.len() && e <= t.len() && #[trigger] t.subrange(j, e) == q;
            assert(occurs_at(t, q, j));
        }
    }
}

/// Whether the title search keeps a song depends on its title alone.
pub proof fn lemma_title_search_reads_title_only(s1: Song, s2: Song, q: Seq<char>)
    requires
        s1.title == s2.title,
    ensures
        title_has(s1, q) == title_has(s2, q),
{
}

/// The year search keeps a stored song exactly when `from <= year <= to`.
pub proof fn lemma_year_search(songs: Map<SongId, Song>, from: u16, to: u16, k: SongId)
    ensures
        ids_in_years(songs, from, to).contains(k) <==> songs.contains_key(k) && from <= songs[k].year
            && songs[k].year <= to,
        forall|s: Song| #[trigger] year_within(s, from, to) <==> from <= s.year && s.year <= to,
{
}

/// The song library.
pub struct Library {
    songs: HashMap<SongId, Song>,
    /// The genre index, a hash table keyed by genre name.
    by_genre: StringHashMap<Vec<SongId>>,
    next_id: u64,
}

impl Library {
    /// The songs, by id.
    pub closed spec fn songs(&self) -> Map<SongId, Song> {
        self.songs@
    }

    /// The genre index: for each genre, the ids filed under it in filing order.
    pub closed spec fn genre_index(&self) -> Map<Seq<char>, Seq<SongId>> {
        index_of(self.by_genre@)
    }

    /// The id the next added song receives.
    pub closed spec fn next_id(&self) -> u64 {
        self.next_id
    }

    /// What every library value satisfies: each song is stored under its
    /// own id, and no id from the next one on is filed without being stored
    /// under that genre.
    pub closed spec fn wf(&self) -> bool {
        &&& forall|k: SongId| #[trigger] self.songs@.contains_key(k) ==> self.songs@[k].id == k
        &&& files_fresh_ids(self.genre_index(), self.songs(), self.next_id)
    }

    /// The songs, the genre index and the next id.
    pub open spec fn model(&self) -> LibraryModel {
        (self.songs(), self.genre_index(), self.next_id())
    }

    /// The index files exactly the stored songs under their genres, each
    /// once.
    pub open spec fn indexed(&self) -> bool {
        files_exactly(self.genre_index(), self.songs(), self.songs().dom())
    }

    /// The library is indexed, and every stored id is below the next id to
    /// hand out.
    pub open spec fn consistent(&self) -> bool {
        &&& self.indexed()
        &&& forall|id: SongId| #[trigger] self.songs().contains_key(id) ==> id < self.next_id()
    }

    /// An empty library whose first song will get `next_id`.
    pub fn new(next_id: u64) -> (r: Self)
        ensures
            r.wf(),
            r.consistent(),
            r.songs() == Map::<SongId, Song>::empty(),
            r.genre_index() == Map::<Seq<char>, Seq<SongId>>::empty(),
            r.next_id() == next_id,
    {
        let r = Library { songs: HashMap::new(), by_genre: StringHashMap::new(), next_id };
        assert(r.genre_index() =~= Map::<Seq<char>, Seq<SongId>>::empty());
        r
    }

    /// The genre index of the songs in `songs`: every song filed once under
    /// its genre. The order of ids within a genre follows the map's
    /// iteration order, which the hasher decides.
    fn rebuild_index(songs: &HashMap<SongId, Song>) -> (r: StringHashMap<Vec<SongId>>)
        ensures
            files_exactly(index_of(r@), songs@, songs@.dom()),
    {
        let mut b: StringHashMap<Vec<SongId>> = StringHashMap::new();
        let ghost m = songs@;
        let ghost mut vis: Set<SongId> = Set::empty();
        let ghost mut at: Map<SongId, int> = Map::empty();
        let ghost mut seen: int = 0;
        proof {
            assert(index_of(b@) =~= Map::<Seq<char>, Seq<SongId>>::empty());
        }
        for p in it: songs.iter()
            invariant
                m == songs@,
                seen == it.index(),
                it.seq().len() == m.dom().len(),
                forall|q: int|
                    0 <= q < it.seq().len() ==> #[trigger] m.contains_key(*it.seq()[q].0) && m[*it.seq()[q].0]
                        == *it.seq()[q].1,
                it.seq().no_duplicates(),
                files_exactly(index_of(b@), m, vis),
                at.dom() == vis,
                forall|x: SongId| #[trigger]
                    vis.contains(x) ==> 0 <= at[x] < it.index() && *it.seq()[at[x]].0 == x,
                forall|k: SongId| #[trigger]
                    m.contains_key(k) ==> vis.contains(k) || exists|q: int|
                        seen <= q < it.seq().len() && *(#[trigger] it.seq()[q]).0 == k,
        {
            let (k, v) = p;
            let ghost i = it.index();
            let ghost sq = it.seq();
            let ghost b0 = b@;
            proof {
                assert(sq[i] == (k, v));
                assert(m.contains_key(*k) && m[*k] == *v);
                assert(!vis.contains(*k)) by {
                    if vis.contains(*k) {
                        assert(sq[at[*k]] == sq[i]);
                    }
                }
            }
            file_into(&mut b, &v.genre, *k);
            proof {
                lemma_file_fresh(index_of(b0), m, vis, *k);
                assert forall|k2: SongId| #[trigger] m.contains_key(k2) implies vis.insert(*k).contains(k2)
                    || exists|q: int| seen + 1 <= q < sq.len() && *(#[trigger] sq[q]).0 == k2 by {
                    if !vis.contains(k2) && k2 != *k {
                        let q = choose|q: int| seen <= q < sq.len() && *(#[trigger] sq[q]).0 == k2;
                        assert(q != i);
                    }
                }
                vis = vis.insert(*k);
                at = at.insert(*k, i);
                seen = seen + 1;
            }
        }
        proof {
            assert(vis =~= m.dom());
        }
        b
    }

    /// A library holding `songs` (a later song replaces an earlier one with
    /// the same id), with the genre index rebuilt from them. Ids start at 1:
    /// a saved next id of 0 (nothing saved yet) becomes 1.
    pub fn from_snapshot(songs: Vec<Song>, next_id: u64) -> (r: Self)
        ensures
            r.wf(),
            r.songs() == songs_by_id(songs@),
            r.next_id() == first_free_id(next_id),
            files_exactly(r.genre_index(), r.songs(), r.songs().dom()),
            (forall|i: int| 0 <= i < songs@.len() ==> (#[trigger] songs@[i]).id < first_free_id(next_id))
                ==> r.consistent(),
    {
        let next_id: u64 = if next_id == 0 {
            1
        } else {
            next_id
        };
        let mut map: HashMap<SongId, Song> = HashMap::new();
        let n = songs.len();
        let mut i: usize = 0;
        proof {
            assert(songs@.take(0) =~= Seq::<Song>::empty());
            assert(map@ =~= songs_by_id(songs@.take(0)));
        }
        while i < n
            invariant
                n == songs@.len(),
                i <= n,
                map@ == songs_by_id(songs@.take(i as int)),
                forall|k: SongId| #[trigger] map@.contains_key(k) ==> map@[k].id == k,
                (forall|j: int| 0 <= j < songs@.len() ==> (#[trigger] songs@[j]).id < next_id) ==> (forall|
                    k: SongId,
                | #[trigger] map@.contains_key(k) ==> k < next_id),
            decreases n - i,
        {
            let s = songs[i].clone();
            proof {
                assert(songs@.take(i + 1).drop_last() =~= songs@.take(i as int));
                assert(songs@.take(i + 1).last() == songs@[i as int]);
            }
            map.insert(s.id, s);
            i = i + 1;
        }
        proof {
            assert(songs@.take(n as int) =~= songs@);
        }
        let by_genre = Self::rebuild_index(&map);
        Library { songs: map, by_genre, next_id }
    }

    /// Whether another song can be added: the next id is not the largest one.
    pub fn can_add(&self) -> (r: bool)
        ensures
            r == (self.next_id() < u64::MAX),
    {
        self.next_id < u64::MAX
    }

    /// Adds `song` under the next id, which it returns; the song's own id
    /// field is overwritten with it, and the id is filed under its genre.
    pub fn add_song(&mut self, song: Song) -> (r: SongId)
        requires
            old(self).wf(),
            old(self).next_id() < u64::MAX,
        ensures
            final(self).wf(),
            r == old(self).next_id(),
            final(self).next_id() == old(self).next_id() + 1,
            final(self).songs() == old(self).songs().insert(r, with_id(song, r)),
            final(self).genre_index() == old(self).genre_index().insert(
                song.genre@,
                if old(self).genre_index().contains_key(song.genre@) {
                    old(self).genre_index()[song.genre@].push(r)
                } else {
                    seq![r]
                },
            ),
            final(self).model() == step(old(self).model(), LibraryStep::Add(song)),
            !old(self).songs().contains_key(old(self).next_id()) ==> count_of(
                genre_entry(final(self).genre_index(), song.genre@),
                r,
            ) == 1,
            old(self).indexed() && !old(self).songs().contains_key(old(self).next_id())
                ==> final(self).indexed(),
            old(self).consistent() ==> final(self).consistent(),
    {
        let id = self.next_id;
        self.next_id = self.next_id + 1;
        let mut song = song;
        song.id = id;
        let ghost g0 = song.genre@;
        file_into(&mut self.by_genre, &song.genre, id);
        self.songs.insert(id, song);
        proof {
            let ix0 = old(self).genre_index();
            let ix1 = self.genre_index();
            let s2 = self.songs();
            assert forall|g: Seq<char>, x: SongId|
                ix1.contains_key(g) && #[trigger] ix1[g].contains(x) && x >= self.next_id implies s2.contains_key(x)
                && s2[x].genre@ == g by {
                if g == g0 {
                    if ix0.contains_key(g0) {
                        assert(ix1[g0] == ix0[g0].push(id));
                        assert(ix0[g0].contains(x)) by {
                            let i = choose|i: int| 0 <= i < ix1[g].len() && ix1[g][i] == x;
                            assert(i < ix0[g0].len());
                            assert(ix0[g0][i] == x);
                        }
                    } else {
                        assert(ix1[g0] == seq![id]);
                        assert(ix1[g0][0] == x);
                    }
                } else {
                    assert(ix1[g] == ix0[g]);
                }
            }
            if !old(self).songs().contains_key(id) {
                let e1 = genre_entry(ix1, g0);
                if ix0.contains_key(g0) {
                    assert(!ix0[g0].contains(id));
                    lemma_count_absent(ix0[g0], id);
                    assert(e1 == ix0[g0].push(id));
                    assert(e1.drop_last() =~= ix0[g0]);
                    assert(e1.last() == id);
                    assert(count_of(e1, id) == count_of(ix0[g0], id) + 1);
                } else {
                    assert(e1 == seq![id]);
                    assert(e1.drop_last() =~= Seq::<SongId>::empty());
                    assert(e1.last() == id);
                    assert(count_of(Seq::<SongId>::empty(), id) == 0);
                    assert(count_of(e1, id) == count_of(e1.drop_last(), id) + 1);
                }
                assert(g0 == song.genre@);
            }
        }
        proof {
            if old(self).indexed() && !old(self).songs().contains_key(id) {
                let s1 = old(self).songs();
                let s2 = self.songs();
                lemma_files_other_map(old(self).genre_index(), s1, s2, s1.dom());
                lemma_file_fresh(old(self).genre_index(), s2, s1.dom(), id);
                assert(s1.dom().insert(id) =~= s2.dom());
            }
        }
        id
    }

    /// Deletes the song stored under `id` and unfiles it from its genre.
    /// Refused while the song is playing; deleting an id that is not
    /// stored succeeds and changes nothing.
    pub fn remove_song(&mut self, id: SongId, playback: &Playback) -> (r: Result<(), LibraryError>)
        requires
            old(self).wf(),
        ensures
            final(self).wf(),
            final(self).next_id() == old(self).next_id(),
            playback@.contains(id) ==> r == Err::<(), LibraryError>(LibraryError::CannotDeletePlaying)
                && final(self).songs() == old(self).songs() && final(self).genre_index() == old(
                self,
            ).genre_index(),
            !playback@.contains(id) ==> r is Ok && final(self).songs() == old(self).songs().remove(id)
                && final(self).genre_index() == index_without(
                old(self).genre_index(),
                old(self).songs(),
                id,
            ),
            !playback@.contains(id) ==> final(self).model() == step(old(self).model(), LibraryStep::Remove(id)),
            old(self).indexed() ==> final(self).indexed(),
            old(self).consistent() ==> final(self).consistent(),
    {
        if playback.is_playing(&id) {
            return Err(LibraryError::CannotDeletePlaying);
        }
        let removed = self.songs.remove(&id);
        let song = match removed {
            Some(s) => s,
            None => {
                assert(self.songs@ =~= old(self).songs@);
                assert(self.songs() == old(self).songs());
                assert(self.genre_index() == old(self).genre_index());
                return Ok(());
            },
        };
        let ghost before = self.by_genre@;
        let rest = match self.by_genre.get(song.genre.as_str()) {
            Some(ids) => Some(without_id(ids, id)),
            None => None,
        };
        match rest {
            Some(rest) => {
                if rest.len() == 0 {
                    self.by_genre.remove(song.genre.as_str());
                } else {
                    self.by_genre.insert(song.genre.clone(), rest);
                }
            },
            None => {},
        }
        proof {
            assert(song == old(self).songs()[id]);
            assert(self.genre_index() =~= index_without(old(self).genre_index(), old(self).songs(), id));
        }
        proof {
            if old(self).indexed() {
                lemma_unfile(old(self).genre_index(), old(self).songs(), id);
            }
            let ix0 = old(self).genre_index();
            let ix1 = self.genre_index();
            let s1 = old(self).songs();
            let s2 = self.songs();
            let gi = s1[id].genre@;
            assert forall|g: Seq<char>, x: SongId|
                ix1.contains_key(g) && #[trigger] ix1[g].contains(x) && x >= self.next_id implies s2.contains_key(x)
                && s2[x].genre@ == g by {
                if g == gi && ix0.contains_key(gi) {
                    lemma_drop_id(ix0[gi], id);
                    assert(ix1[g] == drop_id(ix0[gi], id));
                    assert(ix0[g].contains(x) && x != id);
                } else {
                    assert(ix1[g] == ix0[g]);
                }
            }
        }
        Ok(())
    }

    /// Copies of the stored songs that the criterion keeps, in the map's
    /// iteration order.
    fn select(&self, c: &Criterion) -> (r: Vec<Song>)
        requires
            self.wf(),
        ensures
            exists|ks: Seq<SongId>| lists_songs(r@, ks, self.songs(), kept_ids(self.songs(), *c)),
    {
        let mut r: Vec<Song> = Vec::new();
        let ghost mut ks: Seq<SongId> = Seq::empty();
        let ghost m = self.songs@;
        let ghost mut seen: int = 0;
        let ghost mut pos: Seq<int> = Seq::empty();
        for p in it: self.songs.iter()
            invariant
                m == self.songs@,
                seen == it.index(),
                it.seq().len() == m.dom().len(),
                forall|q: int| 0 <= q < it.seq().len() ==> #[trigger] m.contains_key(*it.seq()[q].0) && m[*it.seq()[q].0] == *it.seq()[q].1,
                it.seq().no_duplicates(),
                forall|k: SongId| #[trigger] kept_ids(m, *c).contains(k) ==> ks.contains(k) || exists|q: int|
                    seen <= q < it.seq().len() && *(#[trigger] it.seq()[q]).0 == k,
                ks.len() == r@.len(),
                ks.no_duplicates(),
                forall|j: int|
                    #![trigger ks[j]]
                    #![trigger r@[j]]
                    0 <= j < ks.len() ==> m.contains_key(ks[j]) && r@[j] == m[ks[j]] && keeps(
                        *c,
                        m[ks[j]],
                    ),
                pos.len() == ks.len(),
                forall|j: int| 0 <= j < ks.len() ==> 0 <= #[trigger] pos[j] < it.index() && *it.seq()[pos[j]].0 == ks[j],
                forall|q: int|
                    0 <= q < it.index() && keeps(*c, m[*(#[trigger] it.seq()[q]).0]) ==> ks.contains(
                        *it.seq()[q].0,
                    ),
        {
            let (k, v) = p;
            proof {
                let sq = it.seq();
                assert(sq[it.index()] == (k, v));
                assert(m.contains_key(*k) && m[*k] == *v);
            }
            if check(c, v) {
                proof {
                    let sq = it.seq();
                    let i = it.index();
                    assert(!ks.contains(*k)) by {
                        if ks.contains(*k) {
                            let j = choose|j: int| 0 <= j < ks.len() && ks[j] == *k;
                            let q = pos[j];
                            assert(sq[q] == sq[i]);
                        }
                    }
                    lemma_push_contains(ks, *k);
                    ks = ks.push(*k);
                    pos = pos.push(i);
                }
                let ghost r0 = r@;
                r.push(v.clone());
                proof {
                    assert forall|j: int| 0 <= j < ks.len() - 1 implies r@[j] == r0[j] by {}
                    assert(r@[ks.len() - 1] == m[ks[ks.len() - 1]]);
                }
            }
            proof {
                seen = seen + 1;
            }
        }
        proof {
            assert(seen == m.dom().len());
            assert forall|k: SongId| #[trigger] kept_ids(m, *c).contains(k) implies ks.contains(k) by {}
            assert forall|k: SongId| ks.contains(k) implies #[trigger] kept_ids(m, *c).contains(k) by {
                let j = choose|j: int| 0 <= j < ks.len() && ks[j] == k;
                assert(m.contains_key(ks[j]) && keeps(*c, m[ks[j]]));
            }
            assert(ks.to_set() =~= kept_ids(m, *c));
            assert(lists_songs(r@, ks, self.songs(), kept_ids(self.songs(), *c)));
        }
        r
    }

    /// Every stored song, in no particular order.
    pub fn list(&self) -> (r: Vec<Song>)
        requires
            self.wf(),
        ensures
            exists|ks: Seq<SongId>| lists_songs(r@, ks, self.songs(), self.songs().dom()),
    {
        let r = self.select(&Criterion::Every);
        assert(kept_ids(self.songs(), Criterion::Every) =~= self.songs().dom());
        r
    }

    /// The stored songs whose lower-cased title contains the lower-cased
    /// query, in no particular order.
    pub fn search_by_title(&self, q: &str) -> (r: Vec<Song>)
        requires
            self.wf(),
        ensures
            exists|ks: Seq<SongId>|
                lists_songs(r@, ks, self.songs(), ids_with_title(self.songs(), lowercase(q@))),
    {
        let ql = to_lowercase(q);
        let qc = chars_of(ql.as_str());
        let c = Criterion::TitleHas(qc);
        let r = self.select(&c);
        assert(kept_ids(self.songs(), c) =~= ids_with_title(self.songs(), lowercase(q@)));
        r
    }

    /// The songs filed under `genre` in the index, in filing order. When
    /// the library is consistent these are exactly the songs of that genre.
    pub fn search_by_genre(&self, genre: &str) -> (r: Vec<Song>)
        requires
            self.wf(),
        ensures
            r@ == songs_for(
                if self.genre_index().contains_key(genre@) {
                    self.genre_index()[genre@]
                } else {
                    Seq::empty()
                },
                self.songs(),
            ),
            self.indexed() ==> exists|ks: Seq<SongId>|
                lists_songs(r@, ks, self.songs(), ids_with_genre(self.songs(), genre@)),
            forall|k: SongId|
                #[trigger] self.songs().contains_key(k) ==> count_of(r@, self.songs()[k]) == count_of(
                    genre_entry(self.genre_index(), genre@),
                    k,
                ),
    {
        let mut r: Vec<Song> = Vec::new();
        match self.by_genre.get(genre) {
            Some(ids) => {
                let mut j: usize = 0;
                while j < ids.len()
                    invariant
                        j <= ids@.len(),
                        r@ == songs_for(ids@.take(j as int), self.songs@),
                    decreases ids@.len() - j,
                {
                    proof {
                        assert(ids@.take(j + 1).drop_last() =~= ids@.take(j as int));
                    }
                    match self.songs.get(&ids[j]) {
                        Some(s) => {
                            r.push(s.clone());
                        },
                        None => {},
                    }
                    j = j + 1;
                }
                proof {
                    assert(ids@.take(ids@.len() as int) =~= ids@);
                }
            },
            None => {},
        }
        proof {
            let m = self.songs();
            let ix = self.genre_index();
            assert forall|k: SongId| #[trigger] m.contains_key(k) implies count_of(r@, m[k]) == count_of(
                genre_entry(ix, genre@),
                k,
            ) by {
                lemma_count_songs_for(genre_entry(ix, genre@), m, k);
            }
            if self.indexed() {
                let ids = if ix.contains_key(genre@) {
                    ix[genre@]
                } else {
                    Seq::empty()
                };
                assert forall|i: int| 0 <= i < ids.len() implies m.contains_key(#[trigger] ids[i]) by {
                    assert(ix[genre@].contains(ids[i]));
                }
                lemma_songs_for_present(ids, m);
                assert forall|k: SongId| #[trigger] ids.contains(k) implies ids_with_genre(m, genre@).contains(k) by {}
                assert forall|k: SongId| #[trigger] ids_with_genre(m, genre@).contains(k) implies ids.contains(k) by {
                    assert(m.dom().contains(k));
                }
                assert(ids.to_set() =~= ids_with_genre(m, genre@));
                assert(lists_songs(r@, ids, m, ids_with_genre(m, genre@)));
            }
        }
        r
    }

    /// The stored songs whose year lies in `from..=to`, in no particular
    /// order.
    pub fn search_by_year_range(&self, from: u16, to: u16) -> (r: Vec<Song>)
        requires
            self.wf(),
        ensures
            exists|ks: Seq<SongId>| lists_songs(r@, ks, self.songs(), ids_in_years(self.songs(), from, to)),
    {
        let c = Criterion::YearWithin(from, to);
        let r = self.select(&c);
        assert(kept_ids(self.songs(), c) =~= ids_in_years(self.songs(), from, to));
        r
    }

    /// Every stored song (in no particular order) and the next id, as they
    /// are saved to disk.
    pub fn to_snapshot(&self) -> (r: (Vec<Song>, u64))
        requires
            self.wf(),
        ensures
            exists|ks: Seq<SongId>| lists_songs(r.0@, ks, self.songs(), self.songs().dom()),
            r.1 == self.next_id(),
    {
        let songs = self.list();
        let ghost ks = choose|ks: Seq<SongId>| lists_songs(songs@, ks, self.songs(), self.songs().dom());
        let r = (songs, self.next_id);
        assert(lists_songs(r.0@, ks, self.songs(), self.songs().dom()));
        r
    }

    /// Each stored song carries the id it is stored under.
    pub proof fn lemma_ids_match(&self)
        requires
            self.wf(),
        ensures
            forall|k: SongId| #[trigger] self.songs().contains_key(k) ==> self.songs()[k].id == k,
    {
    }

    /// The id handed to the next added song is not in use: adding a song
    /// never replaces a stored one while the library is consistent.
    pub proof fn lemma_next_id_is_fresh(&self)
        requires
            self.consistent(),
        ensures
            !self.songs().contains_key(self.next_id()),
    {
    }

    /// Saving and loading give the library back: rebuilding from a listing
    /// of every stored song yields the same songs.
    pub proof fn lemma_snapshot_round_trip(&self, saved: Seq<Song>, ks: Seq<SongId>)
        requires
            self.wf(),
            lists_songs(saved, ks, self.songs(), self.songs().dom()),
        ensures
            songs_by_id(saved) == self.songs(),
    {
        lemma_songs_by_id_prefix(saved, ks, self.songs(), saved.len() as int);
        assert(saved.take(saved.len() as int) =~= saved);
        assert(ks.take(ks.len() as int) =~= ks);
        assert(songs_by_id(saved) =~= self.songs());
    }

    /// Saving and loading give the library back. A library rebuilt (as
    /// `from_snapshot` rebuilds it) from a listing of every song of an
    /// indexed library and its next id holds the same songs, so the title,
    /// year and listing searches answer the same; it files the same songs,
    /// each once, under each genre; and it hands out the same next id (a
    /// saved 0 becomes 1, since ids start at 1).
    pub proof fn lemma_save_load(&self, saved: Seq<Song>, ks: Seq<SongId>, back: &Library)
        requires
            self.wf(),
            self.indexed(),
            lists_songs(saved, ks, self.songs(), self.songs().dom()),
            back.songs() == songs_by_id(saved),
            back.next_id() == first_free_id(self.next_id()),
            back.indexed(),
        ensures
            back.songs() == self.songs(),
            self.next_id() != 0 ==> back.next_id() == self.next_id(),
            forall|q: Seq<char>| #[trigger] ids_with_title(back.songs(), q) == ids_with_title(self.songs(), q),
            forall|a: u16, b: u16| #[trigger] ids_in_years(back.songs(), a, b) == ids_in_years(self.songs(), a, b),
            forall|g: Seq<char>|
                #![trigger genre_entry(back.genre_index(), g)]
                genre_entry(back.genre_index(), g).no_duplicates() && genre_entry(self.genre_index(), g).no_duplicates()
                    && genre_entry(back.genre_index(), g).to_set() == genre_entry(self.genre_index(), g).to_set(),
    {
        self.lemma_snapshot_round_trip(saved, ks);
        assert forall|g: Seq<char>|
            #![trigger genre_entry(back.genre_index(), g)]
            genre_entry(back.genre_index(), g).no_duplicates() && genre_entry(self.genre_index(), g).no_duplicates()
                && genre_entry(back.genre_index(), g).to_set() == genre_entry(self.genre_index(), g).to_set() by {
            lemma_genre_entry_exact(back.genre_index(), back.songs(), g);
            lemma_genre_entry_exact(self.genre_index(), self.songs(), g);
        }
    }

    /// The song stored under `id`, if any.
    pub fn get(&self, id: SongId) -> (r: Option<&Song>)
        ensures
            self.songs().contains_key(id) ==> r == Some(&self.songs()[id]),
            !self.songs().contains_key(id) ==> r is None,
    {
        self.songs.get(&id)
    }
}

} // verus!
