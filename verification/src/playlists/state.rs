//! The immutable playlist state.

use vstd::prelude::*;

use crate::domain::{Playlist, PlaylistId, SongId};
use crate::persistent::{
    lists_entries, playlist_table, table_clone, table_new, table_update, table_values,
};

verus! {

/// What a playlist stands for: its id field, its name and its song ids.
pub type PlaylistModel = (PlaylistId, Seq<char>, Seq<SongId>);

/// The playlists of `t`, each by its model.
pub open spec fn models(t: Map<PlaylistId, Playlist>) -> Map<PlaylistId, PlaylistModel> {
    t.map_values(|p: Playlist| p@)
}

/// The playlists keyed by id, plus the id the next created playlist gets.
pub struct State {
    pub playlists: im::HashMap<PlaylistId, Playlist>,
    pub next_id: PlaylistId,
}

impl View for State {
    type V = (Map<PlaylistId, PlaylistModel>, PlaylistId);

    open spec fn view(&self) -> (Map<PlaylistId, PlaylistModel>, PlaylistId) {
        (models(playlist_table(self.playlists)), self.next_id)
    }
}

impl Clone for State {
    fn clone(&self) -> (r: Self)
        ensures
            r@ == self@,
    {
        State { playlists: table_clone(&self.playlists), next_id: self.next_id }
    }
}

impl Default for State {
    /// No playlists, and 0 as the next id.
    fn default() -> (r: Self)
        ensures
            r@.0 == Map::<PlaylistId, PlaylistModel>::empty(),
            r@.1 == 0,
    {
        let r = State { playlists: table_new(), next_id: 0 };
        assert(r@.0 =~= Map::<PlaylistId, PlaylistModel>::empty());
        r
    }
}

/// The map that inserting the playlists of `s` one by one under their ids
/// gives: a later playlist replaces an earlier one with the same id.
pub open spec fn playlists_by_id(s: Seq<Playlist>) -> Map<PlaylistId, PlaylistModel>
    decreases s.len(),
{
    if s.len() == 0 {
        Map::empty()
    } else {
        playlists_by_id(s.drop_last()).insert(s.last().id, s.last()@)
    }
}

impl State {
    /// No playlists; the first one created gets id 1.
    pub fn new() -> (r: Self)
        ensures
            r@.0 == Map::<PlaylistId, PlaylistModel>::empty(),
            r@.1 == 1,
    {
        let r = State { playlists: table_new(), next_id: 1 };
        assert(r@.0 =~= Map::<PlaylistId, PlaylistModel>::empty());
        r
    }

    /// Every playlist (in the map's own order) and the next id, as they are
    /// saved to disk.
    pub fn to_snapshot(&self) -> (r: (Vec<Playlist>, PlaylistId))
        ensures
            exists|ks: Seq<PlaylistId>| lists_entries(r.0@, ks, playlist_table(self.playlists)),
            r.1 == self.next_id,
    {
        let v = table_values(&self.playlists);
        let ghost ks = choose|ks: Seq<PlaylistId>| lists_entries(v@, ks, playlist_table(self.playlists));
        let r = (v, self.next_id);
        assert(lists_entries(r.0@, ks, playlist_table(self.playlists)));
        r
    }

    /// The state holding `playlists` keyed by their ids (a later playlist
    /// replaces an earlier one with the same id); a next id of 0 becomes 1.
    pub fn from_snapshot(playlists: Vec<Playlist>, next_id: PlaylistId) -> (r: Self)
        ensures
            r@.0 == playlists_by_id(playlists@),
            r@.1 == if next_id == 0 {
                1
            } else {
                next_id
            },
    {
        let mut map = table_new();
        let n = playlists.len();
        let mut i: usize = 0;
        proof {
            assert(playlists@.take(0) =~= Seq::<Playlist>::empty());
            assert(models(playlist_table(map)) =~= playlists_by_id(playlists@.take(0)));
        }
        while i < n
            invariant
                n == playlists@.len(),
                i <= n,
                models(playlist_table(map)) == playlists_by_id(playlists@.take(i as int)),
            decreases n - i,
        {
            let p = playlists[i].clone();
            proof {
                assert(playlists@.take(i + 1).drop_last() =~= playlists@.take(i as int));
                assert(playlists@.take(i + 1).last() == playlists@[i as int]);
            }
            let id = p.id;
            let ghost before = playlist_table(map);
            map = table_update(&map, id, p);
            proof {
                assert(models(playlist_table(map)) =~= models(before).insert(id, p@));
            }
            i = i + 1;
        }
        proof {
            assert(playlists@.take(n as int) =~= playlists@);
        }
        State {
            playlists: map,
            next_id: if next_id == 0 {
                1
            } else {
                next_id
            },
        }
    }
}

} // verus!
