//! Where the audio of a song is streamed from.

use vstd::prelude::*;

use crate::domain::SongId;
use crate::library::Library;
use crate::playback::Playback;

verus! {

/// The source of a song's audio.
#[derive(Debug, PartialEq, Eq)]
pub enum StreamSource {
    /// No such song, or it has no audio.
    NotFound,
    /// A local file, served with byte ranges.
    LocalFile(String),
    /// A preview URL, proxied.
    Preview(String),
}

/// Chooses where song `id` is streamed from: its local file if it has
/// one, else its preview URL. A song that can be streamed is marked
/// playing; it is marked stopped later, by the client.
pub fn stream_source(lib: &Library, playback: &mut Playback, id: SongId) -> (r: StreamSource)
    ensures
        !lib.songs().contains_key(id) ==> r is NotFound && final(playback)@ == old(playback)@,
        lib.songs().contains_key(id) ==> match lib.songs()[id].file_path {
            Some(p) => r == StreamSource::LocalFile(p) && final(playback)@ == old(playback)@.insert(id),
            None => match lib.songs()[id].spotify_preview_url {
                Some(u) => r == StreamSource::Preview(u) && final(playback)@ == old(playback)@.insert(
                    id,
                ),
                None => r is NotFound && final(playback)@ == old(playback)@,
            },
        },
{
    let song = match lib.get(id) {
        Some(s) => s,
        None => {
            return StreamSource::NotFound;
        },
    };
    match &song.file_path {
        Some(p) => {
            playback.mark_playing(&id);
            return StreamSource::LocalFile(p.clone());
        },
        None => {},
    }
    match &song.spotify_preview_url {
        Some(u) => {
            playback.mark_playing(&id);
            StreamSource::Preview(u.clone())
        },
        None => StreamSource::NotFound,
    }
}

} // verus!
