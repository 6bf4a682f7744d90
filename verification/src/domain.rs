//! Shared domain types: songs and playlists.

use vstd::prelude::*;

use crate::persistent::{id_vector_clone, id_vector_items};

verus! {

/// Identifier of a song in the library.
pub type SongId = u64;

/// Identifier of a playlist.
pub type PlaylistId = u64;

/// A song of the library. Its metadata is independent of the file name.
#[derive(Debug)]
pub struct Song {
    pub id: SongId,
    pub title: String,
    pub artist: String,
    pub album: String,
    pub genre: String,
    pub year: u16,
    pub duration_secs: u32,
    /// Local MP3 served when present; otherwise the preview URL is used.
    pub file_path: Option<String>,
    pub spotify_preview_url: Option<String>,
    pub cover_url: Option<String>,
}

/// Copies an optional string, keeping it equal to the given one.
pub fn clone_opt_string(s: &Option<String>) -> (r: Option<String>)
    ensures
        r == *s,
{
    match s {
        Some(x) => Some(x.clone()),
        None => None,
    }
}

impl Clone for Song {
    fn clone(&self) -> (r: Self)
        ensures
            r == *self,
    {
        Song {
            id: self.id,
            title: self.title.clone(),
            artist: self.artist.clone(),
            album: self.album.clone(),
            genre: self.genre.clone(),
            year: self.year,
            duration_secs: self.duration_secs,
            file_path: clone_opt_string(&self.file_path),
            spotify_preview_url: clone_opt_string(&self.spotify_preview_url),
            cover_url: clone_opt_string(&self.cover_url),
        }
    }
}

/// A named, ordered list of song ids.
#[derive(Debug)]
pub struct Playlist {
    pub id: PlaylistId,
    pub name: String,
    pub songs: im::Vector<SongId>,
}

impl View for Playlist {
    /// The id, the name and the song ids in order.
    type V = (PlaylistId, Seq<char>, Seq<SongId>);

    open spec fn view(&self) -> (PlaylistId, Seq<char>, Seq<SongId>) {
        (self.id, self.name@, id_vector_items(self.songs))
    }
}

impl Clone for Playlist {
    fn clone(&self) -> (r: Self)
        ensures
            r@ == self@,
    {
        Playlist { id: self.id, name: self.name.clone(), songs: id_vector_clone(&self.songs) }
    }
}

} // verus!
