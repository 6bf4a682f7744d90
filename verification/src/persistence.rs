//! What is saved to disk: the library and the playlists with their id
//! counters.

use vstd::prelude::*;

use crate::domain::{Playlist, Song};

verus! {

/// The saved library.
pub struct LibrarySnapshot {
    pub songs: Vec<Song>,
    pub next_id: u64,
}

/// The saved playlists.
pub struct PlaylistsSnapshot {
    pub playlists: Vec<Playlist>,
    pub next_id: u64,
}

impl Default for LibrarySnapshot {
    /// No songs, and 0 as the next id: what a missing file loads as.
    fn default() -> (r: Self)
        ensures
            r.songs@.len() == 0,
            r.next_id == 0,
    {
        LibrarySnapshot { songs: Vec::new(), next_id: 0 }
    }
}

impl Default for PlaylistsSnapshot {
    /// No playlists, and 0 as the next id: what a missing file loads as.
    fn default() -> (r: Self)
        ensures
            r.playlists@.len() == 0,
            r.next_id == 0,
    {
        PlaylistsSnapshot { playlists: Vec::new(), next_id: 0 }
    }
}

} // verus!
