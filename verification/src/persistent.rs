//! The persistent collections of the `im` crate that the playlist state is
//! built from, declared to Verus together with what their methods do.

use vstd::prelude::*;

use crate::domain::{Playlist, PlaylistId, Song, SongId};

verus! {

#[verifier::external_type_specification]
#[verifier::external_body]
#[verifier::reject_recursive_types(A)]
pub struct ExImVector<A>(im::Vector<A>);

#[verifier::external_type_specification]
#[verifier::external_body]
#[verifier::reject_recursive_types(K)]
#[verifier::reject_recursive_types(V)]
#[verifier::reject_recursive_types(S)]
pub struct ExImHashMap<K, V, S>(im::HashMap<K, V, S>);

/// The song ids an `im::Vector<SongId>` holds, front to back.
pub uninterp spec fn id_vector_items(v: im::Vector<SongId>) -> Seq<SongId>;

/// The songs an `im::Vector<Song>` holds, front to back.
pub uninterp spec fn song_vector_items(v: im::Vector<Song>) -> Seq<Song>;

/// The entries an `im::HashMap<PlaylistId, Playlist>` holds.
pub uninterp spec fn playlist_table(m: im::HashMap<PlaylistId, Playlist>) -> Map<PlaylistId, Playlist>;

/// `im::Vector::new`: a vector with no items.
#[verifier::external_body]
pub(crate) fn id_vector_new() -> (r: im::Vector<SongId>)
    ensures
        id_vector_items(r) == Seq::<SongId>::empty(),
{
    im::Vector::new()
}

/// `im::Vector::push_back`: appends `x` after the last item.
#[verifier::external_body]
pub(crate) fn id_vector_push_back(v: &mut im::Vector<SongId>, x: SongId)
    ensures
        id_vector_items(*final(v)) == id_vector_items(*old(v)).push(x),
{
    v.push_back(x)
}

/// `im::Vector::len`: the number of items.
#[verifier::external_body]
pub(crate) fn id_vector_len(v: &im::Vector<SongId>) -> (r: usize)
    ensures
        r == id_vector_items(*v).len(),
{
    v.len()
}

/// `im::Vector::get`: the item at `i`, or `None` past the end.
#[verifier::external_body]
pub(crate) fn id_vector_get(v: &im::Vector<SongId>, i: usize) -> (r: Option<SongId>)
    ensures
        i < id_vector_items(*v).len() ==> r == Some(id_vector_items(*v)[i as int]),
        i >= id_vector_items(*v).len() ==> r is None,
{
    v.get(i).copied()
}

/// `Clone` of `im::Vector`: a vector with the same items.
#[verifier::external_body]
pub(crate) fn id_vector_clone(v: &im::Vector<SongId>) -> (r: im::Vector<SongId>)
    ensures
        id_vector_items(r) == id_vector_items(*v),
{
    v.clone()
}

/// `im::Vector::new` for songs: a vector with no items.
#[verifier::external_body]
pub(crate) fn song_vector_new() -> (r: im::Vector<Song>)
    ensures
        song_vector_items(r) == Seq::<Song>::empty(),
{
    im::Vector::new()
}

/// `im::Vector::push_back` for songs: appends `x` after the last item.
#[verifier::external_body]
pub(crate) fn song_vector_push_back(v: &mut im::Vector<Song>, x: Song)
    ensures
        song_vector_items(*final(v)) == song_vector_items(*old(v)).push(x),
{
    v.push_back(x)
}

/// `im::Vector::len` for songs: the number of items.
#[verifier::external_body]
pub(crate) fn song_vector_len(v: &im::Vector<Song>) -> (r: usize)
    ensures
        r == song_vector_items(*v).len(),
{
    v.len()
}

/// `im::Vector::get` for songs: the item at `i`, or `None` past the end.
#[verifier::external_body]
pub(crate) fn song_vector_get(v: &im::Vector<Song>, i: usize) -> (r: Option<&Song>)
    ensures
        i < song_vector_items(*v).len() ==> r == Some(&song_vector_items(*v)[i as int]),
        i >= song_vector_items(*v).len() ==> r is None,
{
    v.get(i)
}

/// `im::HashMap::new`: a map with no entries.
#[verifier::external_body]
pub(crate) fn table_new() -> (r:
    im::HashMap<PlaylistId, Playlist>)
    ensures
        playlist_table(r) =~= Map::empty(),
{
    im::HashMap::new()
}

/// `im::HashMap::get`: the entry under `k`, if any.
#[verifier::external_body]
pub(crate) fn table_get(m: &im::HashMap<PlaylistId, Playlist>, k: PlaylistId) -> (r: Option<
    &Playlist,
>)
    ensures
        playlist_table(*m).contains_key(k) ==> r == Some(&playlist_table(*m)[k]),
        !playlist_table(*m).contains_key(k) ==> r is None,
{
    m.get(&k)
}

/// `im::HashMap::update`: a new map that also maps `k` to `v`, replacing
/// any entry under `k`; the given map is left as it was.
#[verifier::external_body]
pub(crate) fn table_update(m: &im::HashMap<PlaylistId, Playlist>, k: PlaylistId, v: Playlist) -> (r:
    im::HashMap<PlaylistId, Playlist>)
    ensures
        playlist_table(r) == playlist_table(*m).insert(k, v),
{
    m.update(k, v)
}

/// `im::HashMap::without`: a new map without the entry under `k`.
#[verifier::external_body]
pub(crate) fn table_without(m: &im::HashMap<PlaylistId, Playlist>, k: PlaylistId) -> (r:
    im::HashMap<PlaylistId, Playlist>)
    ensures
        playlist_table(r) == playlist_table(*m).remove(k),
{
    m.without(&k)
}

/// `ks` names, position by position, the entry of `table` that `items`
/// holds a copy of, each entry exactly once.
pub open spec fn lists_entries(items: Seq<Playlist>, ks: Seq<PlaylistId>, table: Map<PlaylistId, Playlist>) -> bool {
    &&& ks.len() == items.len()
    &&& ks.no_duplicates()
    &&& ks.to_set() == table.dom()
    &&& forall|i: int| 0 <= i < ks.len() ==> (#[trigger] items[i])@ == table[ks[i]]@
}

/// `Clone` of `im::HashMap`: a map with the same entries.
#[verifier::external_body]
pub(crate) fn table_clone(m: &im::HashMap<PlaylistId, Playlist>) -> (r: im::HashMap<
    PlaylistId,
    Playlist,
>)
    ensures
        playlist_table(r) == playlist_table(*m),
{
    m.clone()
}

/// `im::HashMap::values` followed by a clone of each value: every entry
/// once, in the map's own iteration order, which the source leaves to the
/// hasher. The keys `ks` below say which entry stands at each position.
#[verifier::external_body]
pub(crate) fn table_values(m: &im::HashMap<PlaylistId, Playlist>) -> (r: Vec<Playlist>)
    ensures
        exists|ks: Seq<PlaylistId>| lists_entries(r@, ks, playlist_table(*m)),
{
    m.values().cloned().collect()
}

} // verus!
