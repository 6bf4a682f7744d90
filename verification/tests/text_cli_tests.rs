use spoticry_server::cli::{manual_entry, parse_command, parse_setup_choice, split_words, CliCommand, SetupChoice};
use spoticry_server::library_scan::{extract_spotify_id, TrackEntry};
use spoticry_server::text::{chars_of, is_whitespace, parse_unsigned, trim};

#[test]
fn spotify_id_from_url() {
    assert_eq!(
        extract_spotify_id("https://open.spotify.com/track/4uLU6hMCjMI75M1A2tKUQC?si=abc"),
        Some("4uLU6hMCjMI75M1A2tKUQC".to_string())
    );
    assert_eq!(
        extract_spotify_id("  https://open.spotify.com/intl-es/track/abc123/extra "),
        Some("abc123".to_string())
    );
    assert_eq!(extract_spotify_id("x/track/id#frag"), Some("id".to_string()));
}

#[test]
fn spotify_id_bare_or_blank() {
    assert_eq!(extract_spotify_id("  4uLU6hMCjMI75M1A2tKUQC \n"), Some("4uLU6hMCjMI75M1A2tKUQC".to_string()));
    assert_eq!(extract_spotify_id(""), None);
    assert_eq!(extract_spotify_id("   "), None);
}

#[test]
fn spotify_id_with_empty_part_after_track_keeps_the_input() {
    assert_eq!(
        extract_spotify_id("https://open.spotify.com/track/?si=1"),
        Some("https://open.spotify.com/track/?si=1".to_string())
    );
    assert_eq!(extract_spotify_id("/track/"), Some("/track/".to_string()));
}

#[test]
fn trim_agrees_with_str_trim() {
    for s in ["", "  a b  ", "\u{3000}x\u{a0}", "\t\n", "abc", " \u{2028}y\u{85}"] {
        assert_eq!(trim(s), s.trim());
    }
}

#[test]
fn whitespace_agrees_with_char_is_whitespace() {
    for c in [' ', '\t', '\n', '\r', '\u{b}', '\u{c}', '\u{85}', '\u{a0}', '\u{1680}', '\u{2000}', '\u{200a}',
        '\u{2028}', '\u{2029}', '\u{202f}', '\u{205f}', '\u{3000}', 'a', '\u{200b}', '_', '\u{feff}']
    {
        assert_eq!(is_whitespace(c), c.is_whitespace(), "{:?}", c);
    }
}

#[test]
fn parse_unsigned_agrees_with_str_parse() {
    for s in ["0", "42", "+7", "", "+", "-1", "1a", "18446744073709551615", "18446744073709551616", "007"] {
        let cs = chars_of(s);
        assert_eq!(parse_unsigned(&cs, u64::MAX), s.parse::<u64>().ok(), "{}", s);
    }
    for s in ["65535", "65536", "2024"] {
        let cs = chars_of(s);
        assert_eq!(parse_unsigned(&cs, 65535), s.parse::<u16>().ok().map(|v| v as u64), "{}", s);
    }
}

#[test]
fn split_words_agrees_with_split_whitespace() {
    for s in ["", "  add   a.mp3  id ", "one", "\ttwo\nthree\u{3000}four "] {
        let expected: Vec<String> = s.split_whitespace().map(|w| w.to_string()).collect();
        assert_eq!(split_words(s), expected);
    }
}

#[test]
fn commands_are_read() {
    assert_eq!(parse_command("   "), CliCommand::Empty);
    assert_eq!(parse_command("add song.mp3"), CliCommand::Add { path: "song.mp3".into(), track_id: None });
    assert_eq!(
        parse_command(" add song.mp3  4uLU "),
        CliCommand::Add { path: "song.mp3".into(), track_id: Some("4uLU".into()) }
    );
    assert_eq!(parse_command("add"), CliCommand::AddUsage);
    assert_eq!(parse_command("add a b c"), CliCommand::AddUsage);
    assert_eq!(parse_command("add-spotify xyz"), CliCommand::AddSpotify { track: "xyz".into() });
    assert_eq!(parse_command("add-spotify"), CliCommand::AddSpotifyUsage);
    assert_eq!(parse_command("remove 12"), CliCommand::Remove { id: 12 });
    assert_eq!(parse_command("remove -3"), CliCommand::RemoveBadId { arg: "-3".into() });
    assert_eq!(parse_command("remove 1 2"), CliCommand::RemoveUsage);
    assert_eq!(parse_command("list"), CliCommand::List);
    assert_eq!(parse_command("playlists extra"), CliCommand::Playlists);
    assert_eq!(parse_command("help"), CliCommand::Help);
    assert_eq!(parse_command("?"), CliCommand::Help);
    assert_eq!(parse_command("quit"), CliCommand::Quit);
    assert_eq!(parse_command("exit"), CliCommand::Quit);
    assert_eq!(parse_command("LIST"), CliCommand::Unknown { name: "LIST".into() });
}

#[test]
fn setup_choices_are_read() {
    assert_eq!(parse_setup_choice("s"), SetupChoice::Spotify);
    assert_eq!(parse_setup_choice("  M \n"), SetupChoice::Manual);
    assert_eq!(parse_setup_choice("T"), SetupChoice::Id3);
    assert_eq!(parse_setup_choice("x"), SetupChoice::Skip);
    assert_eq!(parse_setup_choice("yes"), SetupChoice::Invalid);
    assert_eq!(parse_setup_choice(""), SetupChoice::Invalid);
}

#[test]
fn manual_entries_read_the_year() {
    let e = manual_entry("T".into(), "A".into(), "L".into(), "G".into(), "2024");
    match e {
        TrackEntry::Manual { title, artist, album, genre, year, duration_secs } => {
            assert_eq!((title.as_str(), artist.as_str(), album.as_str(), genre.as_str()), ("T", "A", "L", "G"));
            assert_eq!(year, 2024);
            assert_eq!(duration_secs, 0);
        }
        other => panic!("unexpected {:?}", other),
    }
    for (answer, year) in [("abc", 0u16), ("", 0), ("70000", 0), ("+1999", 1999)] {
        match manual_entry(String::new(), String::new(), String::new(), String::new(), answer) {
            TrackEntry::Manual { year: y, .. } => assert_eq!(y, year, "{}", answer),
            other => panic!("unexpected {:?}", other),
        }
    }
}

#[test]
fn an_extracted_id_reads_as_itself() {
    for input in ["https://open.spotify.com/track/4uLU6hMCjMI75M1A2tKUQC?si=abc", "  abc  ", "x/track/id#f", "/track/"] {
        let r = extract_spotify_id(input).unwrap();
        assert_eq!(extract_spotify_id(&r), Some(r.clone()));
    }
}
