//! Loading the MP3 files found in the library folder: how each file is to be
//! configured, songs built from file tags, and reading Spotify track ids.

use vstd::prelude::*;

use crate::cover::{data_url, picture_url};
use crate::domain::Song;
use crate::playlists::ops::{is_arrangement, lex_le, sorts_stably, stable_order, SortKey};
use crate::text::{chars_of, find_from, lemma_trimmed_idempotent, occurs_at, trim, trimmed};

verus! {

/// A file path, carried through unchanged.
#[verifier::external_type_specification]
#[verifier::external_body]
pub struct ExPathBuf(std::path::PathBuf);

/// How a file of the library folder is to be loaded.
#[derive(Clone, Debug)]
pub enum TrackEntry {
    /// Look the metadata and cover up on Spotify.
    Spotify { spotify_id: String },
    /// Metadata written by hand.
    Manual {
        title: String,
        artist: String,
        album: String,
        genre: String,
        year: u16,
        duration_secs: u32,
    },
    /// Read the ID3 tags of the file.
    Id3,
    /// Do not load it; ask again at the next start.
    Skip,
}

/// A new file that still needs to be configured by the user.
#[derive(Debug)]
pub struct PendingTrack {
    pub filename: String,
    pub abs_path: std::path::PathBuf,
}

/// The outcome of scanning the library folder.
pub struct ScanResult {
    /// Songs ready to be added.
    pub configured: Vec<Song>,
    /// Files to ask the user about.
    pub pending: Vec<PendingTrack>,
}

/// What to do with a new file, given its entry in the tracks file.
#[derive(Debug)]
pub enum TrackPlan {
    /// Fetch this Spotify track and attach the file to it.
    FetchSpotify(String),
    /// The song is complete.
    Ready(Song),
    /// Read the file's ID3 tags.
    ReadId3,
    /// Leave it for the user to configure.
    Pending,
}

/// The song for a file whose metadata was written by hand.
pub open spec fn manual_song(
    title: String,
    artist: String,
    album: String,
    genre: String,
    year: u16,
    duration_secs: u32,
    path: String,
) -> Song {
    Song {
        id: 0,
        title,
        artist,
        album,
        genre,
        year,
        duration_secs,
        file_path: Some(path),
        spotify_preview_url: None,
        cover_url: None,
    }
}

/// Decides how to load a new file stored at `abs_path`: by its entry in the
/// tracks file, when there is one. A Spotify entry needs a configured
/// Spotify client; without one the file stays pending.
pub fn plan_track(entry: Option<&TrackEntry>, spotify_ready: bool, abs_path: &String) -> (r: TrackPlan)
    ensures
        match entry {
            Some(TrackEntry::Spotify { spotify_id }) => if spotify_ready {
                r matches TrackPlan::FetchSpotify(id) && id@ == spotify_id@
            } else {
                r is Pending
            },
            Some(TrackEntry::Manual { title, artist, album, genre, year, duration_secs }) => r
                matches TrackPlan::Ready(s) && s == manual_song(
                *title,
                *artist,
                *album,
                *genre,
                *year,
                *duration_secs,
                *abs_path,
            ),
            Some(TrackEntry::Id3) => r is ReadId3,
            Some(TrackEntry::Skip) | None => r is Pending,
        },
{
    match entry {
        Some(TrackEntry::Spotify { spotify_id }) => {
            if spotify_ready {
                TrackPlan::FetchSpotify(spotify_id.clone())
            } else {
                TrackPlan::Pending
            }
        },
        Some(TrackEntry::Manual { title, artist, album, genre, year, duration_secs }) => {
            TrackPlan::Ready(
                Song {
                    id: 0,
                    title: title.clone(),
                    artist: artist.clone(),
                    album: album.clone(),
                    genre: genre.clone(),
                    year: *year,
                    duration_secs: *duration_secs,
                    file_path: Some(abs_path.clone()),
                    spotify_preview_url: None,
                    cover_url: None,
                },
            )
        },
        Some(TrackEntry::Id3) => TrackPlan::ReadId3,
        Some(TrackEntry::Skip) | None => TrackPlan::Pending,
    }
}

/// The file paths of `songs`, in order; songs without a file give none.
pub open spec fn paths_of(songs: Seq<Song>) -> Seq<Seq<char>>
    decreases songs.len(),
{
    if songs.len() == 0 {
        Seq::empty()
    } else {
        let rest = paths_of(songs.drop_last());
        match songs.last().file_path {
            Some(p) => rest.push(p@),
            None => rest,
        }
    }
}

/// The file paths of the songs already in the library, so that a scan does
/// not load a file twice.
pub fn loaded_paths(songs: &Vec<Song>) -> (r: Vec<String>)
    ensures
        r@.len() == paths_of(songs@).len(),
        forall|i: int| 0 <= i < r@.len() ==> (#[trigger] r@[i])@ == paths_of(songs@)[i],
{
    let mut out: Vec<String> = Vec::new();
    let mut i: usize = 0;
    while i < songs.len()
        invariant
            i <= songs@.len(),
            out@.len() == paths_of(songs@.take(i as int)).len(),
            forall|k: int|
                0 <= k < out@.len() ==> (#[trigger] out@[k])@ == paths_of(songs@.take(i as int))[k],
        decreases songs@.len() - i,
    {
        proof {
            assert(songs@.take(i + 1).drop_last() =~= songs@.take(i as int));
        }
        match &songs[i].file_path {
            Some(p) => {
                out.push(p.clone());
            },
            None => {},
        }
        i = i + 1;
    }
    proof {
        assert(songs@.take(i as int) =~= songs@);
    }
    out
}

/// `path` is one of `loaded`.
pub fn is_loaded(loaded: &Vec<String>, path: &String) -> (r: bool)
    ensures
        r == exists|i: int| 0 <= i < loaded@.len() && (#[trigger] loaded@[i])@ == path@,
{
    let mut i: usize = 0;
    while i < loaded.len()
        invariant
            i <= loaded@.len(),
            forall|k: int| 0 <= k < i ==> (#[trigger] loaded@[k])@ != path@,
        decreases loaded@.len() - i,
    {
        if loaded[i] == *path {
            return true;
        }
        i = i + 1;
    }
    false
}

/// The songs of `songs` worth keeping at start: those without a file, and
/// those whose file is still there (`present`, position by position).
pub open spec fn kept_songs(songs: Seq<Song>, present: Seq<bool>) -> Seq<Song>
    decreases songs.len(),
{
    if songs.len() == 0 {
        Seq::empty()
    } else {
        let rest = kept_songs(songs.drop_last(), present.take(songs.len() - 1));
        if songs.last().file_path is None || present[songs.len() - 1] {
            rest.push(songs.last())
        } else {
            rest
        }
    }
}

/// Drops the saved songs whose file has disappeared (`present[i]` says
/// whether the file of song `i` is still there); songs without a file stay.
pub fn keep_present(songs: Vec<Song>, present: &Vec<bool>) -> (r: Vec<Song>)
    requires
        present@.len() == songs@.len(),
    ensures
        r@ == kept_songs(songs@, present@),
{
    let mut out: Vec<Song> = Vec::new();
    let mut i: usize = 0;
    let n = songs.len();
    while i < n
        invariant
            n == songs@.len(),
            present@.len() == n,
            i <= n,
            out@ == kept_songs(songs@.take(i as int), present@.take(i as int)),
        decreases n - i,
    {
        proof {
            assert(songs@.take(i + 1).drop_last() =~= songs@.take(i as int));
            assert(present@.take(i + 1).take(i as int) =~= present@.take(i as int));
        }
        let keep = match &songs[i].file_path {
            Some(_) => present[i],
            None => true,
        };
        if keep {
            out.push(songs[i].clone());
        }
        i = i + 1;
    }
    proof {
        assert(songs@.take(n as int) =~= songs@);
        assert(present@.take(n as int) =~= present@);
    }
    out
}

/// `name` is the name of an MP3 file: its extension is `mp3`. It ends in
/// `.mp3` and is longer than that suffix (a name that is only `.mp3` is a
/// hidden file with no extension).
pub open spec fn is_mp3_name(name: Seq<char>) -> bool {
    name.len() > 4 && name.subrange(name.len() - 4, name.len() as int) == ".mp3"@
}

/// The names of `names` that name MP3 files, in order.
pub open spec fn mp3_names(names: Seq<String>) -> Seq<String>
    decreases names.len(),
{
    if names.len() == 0 {
        Seq::empty()
    } else if is_mp3_name(names.last()@) {
        mp3_names(names.drop_last()).push(names.last())
    } else {
        mp3_names(names.drop_last())
    }
}

/// Whether `name` names an MP3 file.
fn has_mp3_extension(name: &String) -> (r: bool)
    ensures
        r == is_mp3_name(name@),
{
    let cs = chars_of(name.as_str());
    let n = cs.len();
    proof {
        reveal_strlit(".mp3");
    }
    if n <= 4 {
        return false;
    }
    let r = cs[n - 4] == '.' && cs[n - 3] == 'm' && cs[n - 2] == 'p' && cs[n - 1] == '3';
    proof {
        let tail = name@.subrange(n - 4, n as int);
        if r {
            assert(tail =~= ".mp3"@);
        } else {
            assert(tail != ".mp3"@) by {
                if tail == ".mp3"@ {
                    assert(tail[0] == cs@[n - 4]);
                    assert(tail[1] == cs@[n - 3]);
                    assert(tail[2] == cs@[n - 2]);
                    assert(tail[3] == cs@[n - 1]);
                }
            }
        }
    }
    r
}

/// The MP3 files among the names of a folder's files, in the order in
/// which the folder is scanned: sorted by name.
pub fn select_mp3(names: Vec<String>) -> (r: Vec<String>)
    ensures
        exists|pi: Seq<usize>|
            #[trigger] is_arrangement(pi, mp3_names(names@).len() as int) && r@.len() == mp3_names(names@).len()
                && forall|t: int| 0 <= t < r@.len() ==> (#[trigger] r@[t])@ == mp3_names(names@)[pi[t] as int]@,
        forall|t: int, u: int| 0 <= t < u < r@.len() ==> lex_le((#[trigger] r@[t])@, (#[trigger] r@[u])@),
{
    let mut kept: Vec<String> = Vec::new();
    let mut i: usize = 0;
    while i < names.len()
        invariant
            i <= names@.len(),
            kept@.len() == mp3_names(names@.take(i as int)).len(),
            forall|k: int| 0 <= k < kept@.len() ==> (#[trigger] kept@[k])@ == mp3_names(names@.take(i as int))[k]@,
        decreases names@.len() - i,
    {
        proof {
            assert(names@.take(i + 1).drop_last() =~= names@.take(i as int));
        }
        if has_mp3_extension(&names[i]) {
            kept.push(names[i].clone());
        }
        i = i + 1;
    }
    proof {
        assert(names@.take(names@.len() as int) =~= names@);
    }
    let order = stable_order(&kept);
    let mut r: Vec<String> = Vec::new();
    let mut t: usize = 0;
    while t < order.len()
        invariant
            is_arrangement(order@, kept@.len() as int),
            sorts_stably(kept@, order@),
            t <= order@.len(),
            r@.len() == t,
            forall|k: int| 0 <= k < t ==> (#[trigger] r@[k])@ == kept@[order@[k] as int]@,
        decreases order@.len() - t,
    {
        let c = kept[order[t]].clone();
        r.push(c);
        t = t + 1;
    }
    proof {
        let m = mp3_names(names@);
        assert(is_arrangement(order@, m.len() as int));
        assert forall|a: int, b: int| 0 <= a < b < r@.len() implies lex_le((#[trigger] r@[a])@, (#[trigger] r@[b])@) by {
            assert(kept@[order@[a] as int].key_le(kept@[order@[b] as int]));
        }
    }
    r
}

/// A tag value, or `Unknown` when the tag is missing.
pub open spec fn or_unknown(v: Option<String>) -> Seq<char> {
    match v {
        Some(s) => s@,
        None => "Unknown"@,
    }
}

/// The song read from a file's ID3 tags: missing text tags read
/// `Unknown`, a missing year reads 0, and the year is cut to 16 bits. An
/// embedded picture (MIME type and bytes of an `APIC` frame) becomes the
/// cover, as a `data:` URL.
pub fn song_from_id3(
    title: Option<String>,
    artist: Option<String>,
    album: Option<String>,
    genre: Option<String>,
    year: Option<i32>,
    picture: Option<(String, Vec<u8>)>,
    path: String,
) -> (r: Song)
    ensures
        r.id == 0,
        r.title@ == or_unknown(title),
        r.artist@ == or_unknown(artist),
        r.album@ == or_unknown(album),
        r.genre@ == or_unknown(genre),
        r.year == match year {
            Some(y) => y as u16,
            None => 0u16,
        },
        r.duration_secs == 0,
        r.file_path == Some(path),
        r.spotify_preview_url is None,
        match picture {
            Some((mime, data)) => r.cover_url matches Some(u) && u@ == data_url(mime@, data@),
            None => r.cover_url is None,
        },
{
    let unknown = |v: Option<String>| -> (s: String)
        ensures
            s@ == or_unknown(v),
        {
            match v {
                Some(x) => x,
                None => String::from_str("Unknown"),
            }
        };
    let y: u16 = match year {
        Some(y) => y as u16,
        None => 0,
    };
    let cover = match &picture {
        Some((mime, data)) => Some(picture_url(mime.as_str(), data)),
        None => None,
    };
    Song {
        id: 0,
        title: unknown(title),
        artist: unknown(artist),
        album: unknown(album),
        genre: unknown(genre),
        year: y,
        duration_secs: 0,
        file_path: Some(path),
        spotify_preview_url: None,
        cover_url: cover,
    }
}

/// `i` is where `needle` first occurs in `hay`.
pub open spec fn first_occurrence(hay: Seq<char>, needle: Seq<char>, i: int) -> bool {
    occurs_at(hay, needle, i) && forall|k: int| 0 <= k < i ==> !occurs_at(hay, needle, k)
}

/// `c` ends a track id inside a URL.
pub open spec fn ends_id(c: char) -> bool {
    c == '?' || c == '/' || c == '#'
}

/// The part of `s` before the first `?`, `/` or `#`.
pub open spec fn before_id_end(s: Seq<char>) -> Seq<char>
    decreases s.len(),
{
    if s.len() == 0 || ends_id(s[0]) {
        Seq::empty()
    } else {
        seq![s[0]] + before_id_end(s.drop_first())
    }
}

/// The Spotify track id that `input` names: the trimmed input, or, when it
/// holds `/track/`, the part after its first occurrence up to `?`, `/`
/// or `#` (if that part is not empty). Blank input names none.
pub open spec fn spotify_id_of(input: Seq<char>) -> Option<Seq<char>> {
    let t = trimmed(input);
    let pat = "/track/"@;
    if t.len() == 0 {
        None
    } else if exists|i: int| occurs_at(t, pat, i) {
        let i = choose|i: int| first_occurrence(t, pat, i);
        let id = before_id_end(t.skip(i + pat.len()));
        if id.len() > 0 {
            Some(id)
        } else {
            Some(t)
        }
    } else {
        Some(t)
    }
}

/// The part of `s` before the first `?`, `/` or `#` holds none of them.
pub proof fn lemma_before_id_end(s: Seq<char>)
    ensures
        forall|i: int| 0 <= i < before_id_end(s).len() ==> !ends_id(#[trigger] before_id_end(s)[i]),
    decreases s.len(),
{
    if s.len() > 0 && !ends_id(s[0]) {
        lemma_before_id_end(s.drop_first());
        let rest = before_id_end(s.drop_first());
        assert forall|i: int| 0 <= i < before_id_end(s).len() implies !ends_id(
            #[trigger] before_id_end(s)[i],
        ) by {
            if i > 0 {
                assert(before_id_end(s)[i] == rest[i - 1]);
            }
        }
    }
}

/// Reading an id back: a track id read from some input, if it has no
/// surrounding white space, reads as itself.
pub proof fn lemma_extract_again(input: Seq<char>, r: Seq<char>)
    requires
        spotify_id_of(input) == Some(r),
        trimmed(r) == r,
    ensures
        spotify_id_of(r) == Some(r),
{
    let t = trimmed(input);
    let pat = "/track/"@;
    lemma_trimmed_idempotent(input);
    if r == t {
        assert(trimmed(r) == trimmed(input));
    } else {
        let i = choose|i: int| first_occurrence(t, pat, i);
        let id = before_id_end(t.skip(i + pat.len()));
        assert(r == id);
        lemma_before_id_end(t.skip(i + pat.len()));
        reveal_strlit("/track/");
        assert forall|k: int| !occurs_at(r, pat, k) by {
            if occurs_at(r, pat, k) {
                assert(r.subrange(k, k + pat.len())[0] == pat[0]);
                assert(r[k] == '/');
            }
        }
    }
}

/// Reads a Spotify track id from a full URL
/// (`https://open.spotify.com/track/<id>?si=...`) or from the bare id.
pub fn extract_spotify_id(input: &str) -> (r: Option<String>)
    ensures
        match r {
            Some(s) => spotify_id_of(input@) == Some(s@),
            None => spotify_id_of(input@) is None,
        },
{
    let t = trim(input);
    if t.as_str().is_empty() {
        return None;
    }
    let tc = chars_of(t.as_str());
    let pat = chars_of("/track/");
    let ghost tv = trimmed(input@);
    match find_from(&tc, &pat, 0) {
        Some(i) => {
            let tl = tc.len();
            assert(i + pat@.len() <= tl);
            let start = i + pat.len();
            proof {
                assert(first_occurrence(tv, pat@, i as int));
                let c = choose|c: int| first_occurrence(tv, pat@, c);
                if c < i {
                } else if c > i {
                }
                assert(c == i);
                assert(tv.skip(start as int) =~= tv.skip(start as int).skip(0));
            }
            let mut j = start;
            while j < tc.len() && !(tc[j] == '?' || tc[j] == '/' || tc[j] == '#')
                invariant
                    tc@ == tv,
                    start <= j <= tc@.len(),
                    before_id_end(tv.skip(start as int)) == tv.subrange(start as int, j as int)
                        + before_id_end(tv.skip(j as int)),
                decreases tc@.len() - j,
            {
                proof {
                    assert(tv.skip(j as int).drop_first() =~= tv.skip(j + 1));
                    assert(tv.skip(j as int)[0] == tv[j as int]);
                    assert(tv.subrange(start as int, j + 1) =~= tv.subrange(start as int, j as int)
                        + seq![tv[j as int]]);
                }
                j = j + 1;
            }
            proof {
                if j < tc@.len() {
                    assert(tv.skip(j as int)[0] == tv[j as int]);
                }
                assert(before_id_end(tv.skip(j as int)) =~= Seq::<char>::empty());
            }
            if j > start {
                Some(String::from_str(t.as_str().substring_char(start, j)))
            } else {
                Some(t)
            }
        },
        None => Some(t),
    }
}

} // verus!
