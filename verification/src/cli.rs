//! The server's text interface: reading a command line into a command.

use vstd::prelude::*;

use crate::library_scan::TrackEntry;
use crate::text::{
    chars_of, is_whitespace, is_ws, lowercase, parse_unsigned, parsed_unsigned, to_lowercase, trim,
    trimmed,
};

verus! {

/// A command typed at the server prompt.
#[derive(Debug, PartialEq, Eq)]
pub enum CliCommand {
    /// A blank line.
    Empty,
    /// `add <path> [spotify-track-id]`.
    Add { path: String, track_id: Option<String> },
    /// `add` with a wrong number of arguments.
    AddUsage,
    /// `add-spotify <track-id>`.
    AddSpotify { track: String },
    /// `add-spotify` with a wrong number of arguments.
    AddSpotifyUsage,
    /// `remove <song-id>`.
    Remove { id: u64 },
    /// `remove` with a wrong number of arguments.
    RemoveUsage,
    /// `remove` with an argument that is not a song id.
    RemoveBadId { arg: String },
    /// `list`.
    List,
    /// `playlists`.
    Playlists,
    /// `help` or `?`.
    Help,
    /// `quit` or `exit`.
    Quit,
    /// Any other first word.
    Unknown { name: String },
}

/// The words of `s` from position `i` on, `cur` being the word read so far:
/// maximal runs of characters that are not white space.
pub open spec fn words_from(s: Seq<char>, i: int, cur: Seq<char>) -> Seq<Seq<char>>
    decreases s.len() - i,
{
    if i < 0 || i >= s.len() {
        if cur.len() > 0 {
            seq![cur]
        } else {
            Seq::empty()
        }
    } else if is_ws(s[i]) {
        (if cur.len() > 0 {
            seq![cur]
        } else {
            Seq::empty()
        }) + words_from(s, i + 1, Seq::empty())
    } else {
        words_from(s, i + 1, cur.push(s[i]))
    }
}

/// The words of `s`, as `str::split_whitespace` gives them.
pub open spec fn words(s: Seq<char>) -> Seq<Seq<char>> {
    words_from(s, 0, Seq::empty())
}

/// The words of `line`.
pub fn split_words(line: &str) -> (r: Vec<String>)
    ensures
        r@.len() == words(line@).len(),
        forall|i: int| 0 <= i < r@.len() ==> (#[trigger] r@[i])@ == words(line@)[i],
{
    let cs = chars_of(line);
    let n = cs.len();
    let mut out: Vec<String> = Vec::new();
    let ghost mut outv: Seq<Seq<char>> = Seq::empty();
    let mut start: usize = 0;
    let mut i: usize = 0;
    proof {
        assert(cs@.subrange(0, 0) =~= Seq::<char>::empty());
        assert(outv + words(line@) =~= words(line@));
    }
    while i < n
        invariant
            n == cs@.len(),
            cs@ == line@,
            start <= i <= n,
            out@.len() == outv.len(),
            forall|k: int| 0 <= k < out@.len() ==> (#[trigger] out@[k])@ == outv[k],
            words(line@) == outv + words_from(cs@, i as int, cs@.subrange(start as int, i as int)),
        decreases n - i,
    {
        let c = cs[i];
        if is_whitespace(c) {
            if start < i {
                let w = String::from_str(line.substring_char(start, i));
                proof {
                    assert(seq![cs@.subrange(start as int, i as int)] + words_from(cs@, i + 1, Seq::empty())
                        =~= seq![w@] + words_from(cs@, i + 1, Seq::empty()));
                    assert(outv + (seq![w@] + words_from(cs@, i + 1, Seq::empty())) =~= outv.push(w@)
                        + words_from(cs@, i + 1, Seq::empty()));
                    outv = outv.push(w@);
                }
                out.push(w);
            } else {
                proof {
                    assert(Seq::<Seq<char>>::empty() + words_from(cs@, i + 1, Seq::empty()) =~= words_from(
                        cs@,
                        i + 1,
                        Seq::empty(),
                    ));
                }
            }
            proof {
                assert(cs@.subrange(i + 1, i + 1) =~= Seq::<char>::empty());
            }
            start = i + 1;
        } else {
            proof {
                assert(cs@.subrange(start as int, i as int).push(cs@[i as int]) =~= cs@.subrange(
                    start as int,
                    i + 1,
                ));
            }
        }
        i = i + 1;
    }
    if start < n {
        let w = String::from_str(line.substring_char(start, n));
        proof {
            assert(outv + seq![w@] =~= outv.push(w@));
            outv = outv.push(w@);
        }
        out.push(w);
    } else {
        proof {
            assert(outv + Seq::<Seq<char>>::empty() =~= outv);
        }
    }
    out
}

/// `line` reads as command `c`.
pub open spec fn parses_as(line: Seq<char>, c: CliCommand) -> bool {
    let w = words(line);
    if w.len() == 0 {
        c is Empty
    } else {
        let name = w[0];
        let args = w.skip(1);
        if name == "add"@ {
            if args.len() == 1 {
                c matches CliCommand::Add { path, track_id } && path@ == args[0] && track_id is None
            } else if args.len() == 2 {
                c matches CliCommand::Add { path, track_id } && path@ == args[0] && (
                track_id matches Some(t) && t@ == args[1])
            } else {
                c is AddUsage
            }
        } else if name == "add-spotify"@ {
            if args.len() == 1 {
                c matches CliCommand::AddSpotify { track } && track@ == args[0]
            } else {
                c is AddSpotifyUsage
            }
        } else if name == "remove"@ {
            if args.len() != 1 {
                c is RemoveUsage
            } else {
                match parsed_unsigned(args[0], u64::MAX as nat) {
                    Some(v) => c matches CliCommand::Remove { id } && id == v,
                    None => c matches CliCommand::RemoveBadId { arg } && arg@ == args[0],
                }
            }
        } else if name == "list"@ {
            c is List
        } else if name == "playlists"@ {
            c is Playlists
        } else if name == "help"@ || name == "?"@ {
            c is Help
        } else if name == "quit"@ || name == "exit"@ {
            c is Quit
        } else {
            c matches CliCommand::Unknown { name: n } && n@ == name
        }
    }
}

/// Reads a command line.
pub fn parse_command(line: &str) -> (r: CliCommand)
    ensures
        parses_as(line@, r),
{
    let mut w = split_words(line);
    if w.len() == 0 {
        return CliCommand::Empty;
    }
    let ghost wv = words(line@);
    let ghost args = wv.skip(1);
    let name = w.remove(0);
    proof {
        assert forall|i: int| 0 <= i < w@.len() implies (#[trigger] w@[i])@ == args[i] by {}
    }
    let nargs = w.len();
    if name == String::from_str("add") {
        if nargs == 1 {
            let path = w.remove(0);
            CliCommand::Add { path, track_id: None }
        } else if nargs == 2 {
            let track = w.remove(1);
            let path = w.remove(0);
            CliCommand::Add { path, track_id: Some(track) }
        } else {
            CliCommand::AddUsage
        }
    } else if name == String::from_str("add-spotify") {
        if nargs == 1 {
            let track = w.remove(0);
            CliCommand::AddSpotify { track }
        } else {
            CliCommand::AddSpotifyUsage
        }
    } else if name == String::from_str("remove") {
        if nargs != 1 {
            CliCommand::RemoveUsage
        } else {
            let arg = w.remove(0);
            let cs = chars_of(arg.as_str());
            match parse_unsigned(&cs, u64::MAX) {
                Some(id) => CliCommand::Remove { id },
                None => CliCommand::RemoveBadId { arg },
            }
        }
    } else if name == String::from_str("list") {
        CliCommand::List
    } else if name == String::from_str("playlists") {
        CliCommand::Playlists
    } else if name == String::from_str("help") || name == String::from_str("?") {
        CliCommand::Help
    } else if name == String::from_str("quit") || name == String::from_str("exit") {
        CliCommand::Quit
    } else {
        CliCommand::Unknown { name }
    }
}

/// How the user chose to load a new file during setup.
#[derive(Clone, Copy, Debug, PartialEq, Eq, Structural)]
pub enum SetupChoice {
    /// `s`: paste a Spotify link or id.
    Spotify,
    /// `m`: type the metadata by hand.
    Manual,
    /// `t`: read the file's ID3 tags.
    Id3,
    /// `x`: skip it until the next start.
    Skip,
    /// Anything else.
    Invalid,
}

/// The choice an answer names once trimmed and lower-cased.
pub open spec fn choice_named(answer: Seq<char>) -> SetupChoice {
    if answer == "s"@ {
        SetupChoice::Spotify
    } else if answer == "m"@ {
        SetupChoice::Manual
    } else if answer == "t"@ {
        SetupChoice::Id3
    } else if answer == "x"@ {
        SetupChoice::Skip
    } else {
        SetupChoice::Invalid
    }
}

/// Reads the answer to "how should this file be loaded?".
pub fn parse_setup_choice(line: &str) -> (r: SetupChoice)
    ensures
        r == choice_named(lowercase(trimmed(line@))),
{
    let t = trim(line);
    let a = to_lowercase(t.as_str());
    proof {
        reveal_strlit("s");
        reveal_strlit("m");
        reveal_strlit("t");
        reveal_strlit("x");
    }
    if a == String::from_str("s") {
        SetupChoice::Spotify
    } else if a == String::from_str("m") {
        SetupChoice::Manual
    } else if a == String::from_str("t") {
        SetupChoice::Id3
    } else if a == String::from_str("x") {
        SetupChoice::Skip
    } else {
        SetupChoice::Invalid
    }
}

/// The year typed during manual setup: the answer read as a number, or 0
/// when it is not one that fits in 16 bits.
pub open spec fn typed_year(answer: Seq<char>) -> u16 {
    match parsed_unsigned(answer, 65535) {
        Some(v) => v as u16,
        None => 0,
    }
}

/// The tracks-file entry for metadata typed by hand (answers already
/// trimmed); the duration is left at 0.
pub fn manual_entry(title: String, artist: String, album: String, genre: String, year_answer: &str) -> (r: TrackEntry)
    ensures
        r == (TrackEntry::Manual {
            title,
            artist,
            album,
            genre,
            year: typed_year(year_answer@),
            duration_secs: 0,
        }),
{
    let cs = chars_of(year_answer);
    let year: u16 = match parse_unsigned(&cs, 65535) {
        Some(v) => v as u16,
        None => 0,
    };
    TrackEntry::Manual { title, artist, album, genre, year, duration_secs: 0 }
}

} // verus!
