//! Turning a Spotify track, as the Web API describes it, into a song.

use vstd::prelude::*;

use crate::domain::{clone_opt_string, Song};
use crate::text::{chars_of, parsed_unsigned};

verus! {

/// The year a release date starts with: its first four characters read as
/// a number, or 0 when there is no date or they are not one.
pub open spec fn release_year(date: Option<String>) -> u16 {
    match date {
        Some(d) => if d@.len() >= 4 {
            match parsed_unsigned(d@.take(4), 65535) {
                Some(v) => v as u16,
                None => 0,
            }
        } else {
            0
        },
        None => 0,
    }
}

/// The first item of `v`, if any.
pub open spec fn first_of(v: Seq<String>) -> Option<String> {
    if v.len() > 0 {
        Some(v[0])
    } else {
        None
    }
}

/// The song for a Spotify track: its name, first artist (empty when it
/// lists none), album, release year, whole seconds of duration (cut to 32
/// bits), preview URL and first album image; the genre reads `spotify`.
pub fn song_from_track(
    name: String,
    artists: &Vec<String>,
    album: String,
    images: &Vec<String>,
    duration_ms: u64,
    release_date: &Option<String>,
    preview_url: Option<String>,
) -> (r: Song)
    ensures
        r.id == 0,
        r.title == name,
        r.artist@ == match first_of(artists@) {
            Some(a) => a@,
            None => Seq::<char>::empty(),
        },
        r.album == album,
        r.genre@ == "spotify"@,
        r.year == release_year(*release_date),
        r.duration_secs == (duration_ms / 1000) as u32,
        r.file_path is None,
        r.spotify_preview_url == preview_url,
        r.cover_url == first_of(images@),
{
    let year: u16 = match release_date {
        Some(d) => {
            let cs = chars_of(d.as_str());
            if cs.len() >= 4 {
                let mut first: Vec<char> = Vec::new();
                first.push(cs[0]);
                first.push(cs[1]);
                first.push(cs[2]);
                first.push(cs[3]);
                proof {
                    assert(first@ =~= d@.take(4));
                }
                match crate::text::parse_unsigned(&first, 65535) {
                    Some(v) => v as u16,
                    None => 0,
                }
            } else {
                0
            }
        },
        None => 0,
    };
    let artist = if artists.len() > 0 {
        artists[0].clone()
    } else {
        String::new()
    };
    let cover = if images.len() > 0 {
        Some(images[0].clone())
    } else {
        None
    };
    Song {
        id: 0,
        title: name,
        artist,
        album,
        genre: String::from_str("spotify"),
        year,
        duration_secs: (duration_ms / 1000) as u32,
        file_path: None,
        spotify_preview_url: preview_url,
        cover_url: cover,
    }
}

} // verus!
