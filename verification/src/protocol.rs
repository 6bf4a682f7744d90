//! The messages exchanged with clients, as plain values. Decoding and
//! encoding JSON is left to the network front end.

use vstd::prelude::*;

use crate::domain::{Playlist, PlaylistId, Song, SongId};

verus! {

/// What a search or a playlist filter looks at.
#[derive(Clone, Copy, Debug, PartialEq, Eq, Structural)]
pub enum SearchBy {
    Title,
    Genre,
    YearRange,
}

/// What a playlist is sorted by.
#[derive(Clone, Copy, Debug, PartialEq, Eq, Structural)]
pub enum SortBy {
    Title,
    Year,
    Duration,
}

/// The error codes clients receive.
#[derive(Clone, Copy, Debug, PartialEq, Eq, Structural)]
pub enum ErrorCode {
    CannotDeletePlaying,
    NotFound,
    BadRequest,
    Internal,
}

/// The `value` of a search as the front end reads it: the string it holds
/// (empty when it is not a string) and the list of years it holds (empty
/// when it is not such a list).
#[derive(Clone, Debug)]
pub struct SearchValue {
    pub text: String,
    pub years: Vec<u16>,
}

/// A request from a client.
#[allow(inconsistent_fields)]
#[derive(Debug)]
pub enum ClientMsg {
    Search { by: SearchBy, value: SearchValue },
    LibraryList,
    PlaylistList,
    PlaylistCreate { name: String },
    PlaylistDelete { playlist_id: PlaylistId },
    PlaylistAdd { playlist_id: PlaylistId, song_id: SongId },
    PlaylistRemove { playlist_id: PlaylistId, song_id: SongId },
    PlaylistFilter { playlist_id: PlaylistId, by: SearchBy, value: SearchValue },
    PlaylistSort { playlist_id: PlaylistId, by: SortBy },
    Play { song_id: SongId },
    Stop { song_id: SongId },
}

/// An event sent to clients.
#[derive(Debug)]
pub enum ServerEvent {
    LibrarySnapshot { songs: Vec<Song> },
    PlaylistSnapshot { playlists: Vec<Playlist> },
    SearchResult { songs: Vec<Song> },
    NowPlaying { song_id: SongId, stream_url: String },
    PlaybackStopped { song_id: SongId },
    Error { code: ErrorCode, msg: String },
}

} // verus!
