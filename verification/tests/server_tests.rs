use spoticry_server::cover::picture_url;
use std::collections::HashSet;

use spoticry_server::domain::Song;
use spoticry_server::http_stream::{stream_source, StreamSource};
use spoticry_server::library::Library;
use spoticry_server::library_scan::{
    is_loaded, keep_present, loaded_paths, plan_track, select_mp3, song_from_id3, TrackEntry, TrackPlan,
};
use spoticry_server::persistence::{LibrarySnapshot, PlaylistsSnapshot};
use spoticry_server::playback::Playback;
use spoticry_server::playlists::state::State;
use spoticry_server::protocol::{ClientMsg, ErrorCode, SearchBy, SearchValue, ServerEvent, SortBy};
use spoticry_server::spotify::song_from_track;
use spoticry_server::ws::{
    handle_client_msg, handle_request, initial_events, playlist_filter, playlist_sort, release_owned, search,
};

fn song(title: &str, genre: &str, year: u16, secs: u32) -> Song {
    Song {
        id: 0,
        title: title.into(),
        artist: "A".into(),
        album: "B".into(),
        genre: genre.into(),
        year,
        duration_secs: secs,
        file_path: None,
        spotify_preview_url: None,
        cover_url: None,
    }
}

fn text(s: &str) -> SearchValue {
    SearchValue { text: s.into(), years: vec![] }
}

fn years(v: &[u16]) -> SearchValue {
    SearchValue { text: String::new(), years: v.to_vec() }
}

fn sorted_ids(songs: &[Song]) -> Vec<u64> {
    let mut v: Vec<u64> = songs.iter().map(|s| s.id).collect();
    v.sort();
    v
}

fn sample_library() -> Library {
    let mut lib = Library::new(1);
    lib.add_song(song("Bohemian Rhapsody", "Rock", 1975, 354));
    lib.add_song(song("Imagine", "Pop", 1971, 183));
    lib.add_song(song("Back in Black", "Rock", 1980, 255));
    lib
}

fn playlist_ids(e: &Option<ServerEvent>) -> Vec<u64> {
    match e {
        Some(ServerEvent::PlaylistSnapshot { playlists }) => {
            let mut v: Vec<u64> = playlists.iter().map(|p| p.id).collect();
            v.sort();
            v
        }
        other => panic!("expected a playlist snapshot, got {:?}", other),
    }
}

#[test]
fn search_by_each_criterion() {
    let lib = sample_library();
    assert_eq!(sorted_ids(&search(&lib, SearchBy::Title, &text("BACK"))), vec![3]);
    assert_eq!(sorted_ids(&search(&lib, SearchBy::Genre, &text("Rock"))), vec![1, 3]);
    assert_eq!(sorted_ids(&search(&lib, SearchBy::YearRange, &years(&[1970, 1975]))), vec![1, 2]);
    assert!(search(&lib, SearchBy::YearRange, &years(&[1970])).is_empty());
    assert!(search(&lib, SearchBy::YearRange, &years(&[1970, 1980, 1990])).is_empty());
}

#[test]
fn create_then_refuse_with_messages() {
    let lib = sample_library();
    let mut st = State::new();
    let mut pb = Playback::new();
    let mut owned = HashSet::new();
    let r = handle_client_msg(ClientMsg::PlaylistCreate { name: " Chill ".into() }, &lib, &mut st, &mut pb, &mut owned);
    assert!(r.save);
    assert_eq!(playlist_ids(&r.event), vec![1]);
    assert_eq!(st.playlists.get(&1).unwrap().name, "Chill");

    let r = handle_client_msg(ClientMsg::PlaylistCreate { name: "chill".into() }, &lib, &mut st, &mut pb, &mut owned);
    assert!(!r.save);
    match r.event {
        Some(ServerEvent::Error { code, msg }) => {
            assert_eq!(code, ErrorCode::BadRequest);
            assert_eq!(msg, "Ya existe una playlist con el nombre 'chill'");
        }
        other => panic!("unexpected {:?}", other),
    }

    let r = handle_client_msg(ClientMsg::PlaylistCreate { name: "   ".into() }, &lib, &mut st, &mut pb, &mut owned);
    match r.event {
        Some(ServerEvent::Error { code, msg }) => {
            assert_eq!(code, ErrorCode::BadRequest);
            assert_eq!(msg, "El nombre no puede estar vacío");
        }
        other => panic!("unexpected {:?}", other),
    }
    assert_eq!(st.playlists.len(), 1);
}

#[test]
fn play_and_stop() {
    let lib = sample_library();
    let mut st = State::new();
    let mut pb = Playback::new();
    let mut owned = HashSet::new();
    let r = handle_client_msg(ClientMsg::Play { song_id: 2 }, &lib, &mut st, &mut pb, &mut owned);
    match r.event {
        Some(ServerEvent::NowPlaying { song_id, stream_url }) => {
            assert_eq!(song_id, 2);
            assert_eq!(stream_url, "/stream/2");
        }
        other => panic!("unexpected {:?}", other),
    }
    assert!(!r.save);
    assert!(pb.is_playing(&2));
    assert!(owned.contains(&2));

    let r = handle_client_msg(ClientMsg::Play { song_id: 70 }, &lib, &mut st, &mut pb, &mut owned);
    match r.event {
        Some(ServerEvent::Error { code, msg }) => {
            assert_eq!(code, ErrorCode::NotFound);
            assert_eq!(msg, "song 70 not found");
        }
        other => panic!("unexpected {:?}", other),
    }
    assert!(!pb.is_playing(&70));

    let r = handle_client_msg(ClientMsg::Stop { song_id: 2 }, &lib, &mut st, &mut pb, &mut owned);
    assert!(matches!(r.event, Some(ServerEvent::PlaybackStopped { song_id: 2 })));
    assert!(!pb.is_playing(&2));
    assert!(owned.is_empty());
}

#[test]
fn playlist_requests_change_the_state() {
    let lib = sample_library();
    let mut st = State::new();
    let mut pb = Playback::new();
    let mut owned = HashSet::new();
    handle_client_msg(ClientMsg::PlaylistCreate { name: "a".into() }, &lib, &mut st, &mut pb, &mut owned);
    for sid in [3, 1, 2] {
        let r = handle_client_msg(ClientMsg::PlaylistAdd { playlist_id: 1, song_id: sid }, &lib, &mut st, &mut pb, &mut owned);
        assert!(r.save);
    }
    let r = handle_client_msg(ClientMsg::PlaylistSort { playlist_id: 1, by: SortBy::Year }, &lib, &mut st, &mut pb, &mut owned);
    assert!(r.save);
    let order: Vec<u64> = st.playlists.get(&1).unwrap().songs.iter().cloned().collect();
    assert_eq!(order, vec![2, 1, 3]);

    let r = handle_client_msg(ClientMsg::PlaylistSort { playlist_id: 9, by: SortBy::Year }, &lib, &mut st, &mut pb, &mut owned);
    assert!(r.event.is_none());
    assert!(!r.save);

    let r = handle_client_msg(
        ClientMsg::PlaylistFilter { playlist_id: 1, by: SearchBy::Genre, value: text("Rock") },
        &lib,
        &mut st,
        &mut pb,
        &mut owned,
    );
    match r.event {
        Some(ServerEvent::SearchResult { songs }) => {
            assert_eq!(songs.iter().map(|s| s.id).collect::<Vec<_>>(), vec![1, 3]);
        }
        other => panic!("unexpected {:?}", other),
    }

    handle_client_msg(ClientMsg::PlaylistRemove { playlist_id: 1, song_id: 1 }, &lib, &mut st, &mut pb, &mut owned);
    let order: Vec<u64> = st.playlists.get(&1).unwrap().songs.iter().cloned().collect();
    assert_eq!(order, vec![2, 3]);

    let r = handle_client_msg(ClientMsg::PlaylistDelete { playlist_id: 1 }, &lib, &mut st, &mut pb, &mut owned);
    assert!(r.save);
    assert_eq!(playlist_ids(&r.event), Vec::<u64>::new());

    let r = handle_client_msg(ClientMsg::LibraryList, &lib, &mut st, &mut pb, &mut owned);
    match r.event {
        Some(ServerEvent::LibrarySnapshot { songs }) => assert_eq!(sorted_ids(&songs), vec![1, 2, 3]),
        other => panic!("unexpected {:?}", other),
    }
}

#[test]
fn playlist_filter_and_sort_directly() {
    let lib = sample_library();
    let st = State::new();
    let (st, pid) = spoticry_server::playlists::ops::create(&st, "p".into()).unwrap();
    let st = spoticry_server::playlists::ops::add_song(&st, pid, 1);
    let st = spoticry_server::playlists::ops::add_song(&st, pid, 2);
    let st = spoticry_server::playlists::ops::add_song(&st, pid, 3);
    let r: Vec<u64> = playlist_filter(&lib, &st, pid, SearchBy::Title, &text("IN")).iter().map(|s| s.id).collect();
    assert_eq!(r, vec![2, 3]);
    let r: Vec<u64> = playlist_filter(&lib, &st, pid, SearchBy::YearRange, &years(&[1971, 1979])).iter().map(|s| s.id).collect();
    assert_eq!(r, vec![1, 2]);
    assert!(playlist_filter(&lib, &st, pid, SearchBy::YearRange, &years(&[])).is_empty());
    assert!(playlist_filter(&lib, &st, 99, SearchBy::Genre, &text("Rock")).is_empty());
    let sorted = playlist_sort(&lib, &st, pid, SortBy::Duration).unwrap();
    let order: Vec<u64> = sorted.playlists.get(&pid).unwrap().songs.iter().cloned().collect();
    assert_eq!(order, vec![2, 3, 1]);
    let sorted = playlist_sort(&lib, &st, pid, SortBy::Title).unwrap();
    let order: Vec<u64> = sorted.playlists.get(&pid).unwrap().songs.iter().cloned().collect();
    assert_eq!(order, vec![3, 1, 2]);
}

#[test]
fn closing_a_connection_stops_its_songs() {
    let lib = sample_library();
    let mut st = State::new();
    let mut pb = Playback::new();
    let mut owned = HashSet::new();
    handle_client_msg(ClientMsg::Play { song_id: 1 }, &lib, &mut st, &mut pb, &mut owned);
    handle_client_msg(ClientMsg::Play { song_id: 3 }, &lib, &mut st, &mut pb, &mut owned);
    pb.mark_playing(&2);
    let events = release_owned(&mut owned, &mut pb);
    let mut stopped: Vec<u64> = events
        .iter()
        .map(|e| match e {
            ServerEvent::PlaybackStopped { song_id } => *song_id,
            other => panic!("unexpected {:?}", other),
        })
        .collect();
    stopped.sort();
    assert_eq!(stopped, vec![1, 3]);
    assert!(owned.is_empty());
    assert!(!pb.is_playing(&1));
    assert!(!pb.is_playing(&3));
    assert!(pb.is_playing(&2));
}

#[test]
fn first_events_of_a_connection() {
    let lib = sample_library();
    let st = State::new();
    let (st, _) = spoticry_server::playlists::ops::create(&st, "p".into()).unwrap();
    let ev = initial_events(&lib, &st);
    assert_eq!(ev.len(), 2);
    match &ev[0] {
        ServerEvent::LibrarySnapshot { songs } => assert_eq!(sorted_ids(songs), vec![1, 2, 3]),
        other => panic!("unexpected {:?}", other),
    }
    match &ev[1] {
        ServerEvent::PlaylistSnapshot { playlists } => assert_eq!(playlists.len(), 1),
        other => panic!("unexpected {:?}", other),
    }
}

#[test]
fn stream_source_prefers_the_local_file() {
    let mut lib = Library::new(1);
    let mut a = song("a", "x", 1, 1);
    a.file_path = Some("/music/a.mp3".into());
    a.spotify_preview_url = Some("https://p/a".into());
    let mut b = song("b", "x", 1, 1);
    b.spotify_preview_url = Some("https://p/b".into());
    let c = song("c", "x", 1, 1);
    lib.add_song(a);
    lib.add_song(b);
    lib.add_song(c);
    let mut pb = Playback::new();
    assert_eq!(stream_source(&lib, &mut pb, 1), StreamSource::LocalFile("/music/a.mp3".into()));
    assert_eq!(stream_source(&lib, &mut pb, 2), StreamSource::Preview("https://p/b".into()));
    assert_eq!(stream_source(&lib, &mut pb, 3), StreamSource::NotFound);
    assert_eq!(stream_source(&lib, &mut pb, 4), StreamSource::NotFound);
    assert!(pb.is_playing(&1));
    assert!(pb.is_playing(&2));
    assert!(!pb.is_playing(&3));
    assert!(!pb.is_playing(&4));
}

#[test]
fn spotify_track_becomes_a_song() {
    let s = song_from_track(
        "Song".into(),
        &vec!["First".into(), "Second".into()],
        "Album".into(),
        &vec!["https://img/1".into(), "https://img/2".into()],
        215_999,
        &Some("1999-03-01".into()),
        Some("https://preview".into()),
    );
    assert_eq!(s.id, 0);
    assert_eq!(s.title, "Song");
    assert_eq!(s.artist, "First");
    assert_eq!(s.album, "Album");
    assert_eq!(s.genre, "spotify");
    assert_eq!(s.year, 1999);
    assert_eq!(s.duration_secs, 215);
    assert_eq!(s.file_path, None);
    assert_eq!(s.spotify_preview_url.as_deref(), Some("https://preview"));
    assert_eq!(s.cover_url.as_deref(), Some("https://img/1"));
}

#[test]
fn spotify_release_years() {
    let year = |d: Option<&str>| {
        song_from_track(String::new(), &vec![], String::new(), &vec![], 0, &d.map(|x| x.to_string()), None).year
    };
    assert_eq!(year(Some("2024")), 2024);
    assert_eq!(year(Some("198")), 0);
    assert_eq!(year(Some("abcd-01")), 0);
    assert_eq!(year(None), 0);
    let s = song_from_track(String::new(), &vec![], String::new(), &vec![], 999, &None, None);
    assert_eq!(s.artist, "");
    assert_eq!(s.cover_url, None);
    assert_eq!(s.duration_secs, 0);
}

#[test]
fn id3_tags_become_a_song() {
    let s = song_from_id3(Some("T".into()), None, Some("Al".into()), None, Some(2001), None, "/m/x.mp3".into());
    assert_eq!(s.title, "T");
    assert_eq!(s.artist, "Unknown");
    assert_eq!(s.album, "Al");
    assert_eq!(s.genre, "Unknown");
    assert_eq!(s.year, 2001);
    assert_eq!(s.duration_secs, 0);
    assert_eq!(s.file_path.as_deref(), Some("/m/x.mp3"));
    assert_eq!(s.cover_url, None);
    let s = song_from_id3(None, None, None, None, None, None, "p".into());
    assert_eq!(s.year, 0);
    let s = song_from_id3(None, None, None, None, Some(70_000), None, "p".into());
    assert_eq!(s.year, (70_000i32) as u16);
}

#[test]
fn scan_plans_follow_the_tracks_file() {
    let path = "/lib/a.mp3".to_string();
    let sp = TrackEntry::Spotify { spotify_id: "abc".into() };
    assert!(matches!(plan_track(Some(&sp), true, &path), TrackPlan::FetchSpotify(ref id) if id == "abc"));
    assert!(matches!(plan_track(Some(&sp), false, &path), TrackPlan::Pending));
    let manual = TrackEntry::Manual {
        title: "T".into(),
        artist: "A".into(),
        album: "L".into(),
        genre: "G".into(),
        year: 2000,
        duration_secs: 61,
    };
    match plan_track(Some(&manual), false, &path) {
        TrackPlan::Ready(s) => {
            assert_eq!(s.id, 0);
            assert_eq!(s.title, "T");
            assert_eq!(s.genre, "G");
            assert_eq!(s.year, 2000);
            assert_eq!(s.duration_secs, 61);
            assert_eq!(s.file_path.as_deref(), Some("/lib/a.mp3"));
            assert_eq!(s.spotify_preview_url, None);
        }
        other => panic!("unexpected {:?}", other),
    }
    assert!(matches!(plan_track(Some(&TrackEntry::Id3), true, &path), TrackPlan::ReadId3));
    assert!(matches!(plan_track(Some(&TrackEntry::Skip), true, &path), TrackPlan::Pending));
    assert!(matches!(plan_track(None, true, &path), TrackPlan::Pending));
}

#[test]
fn already_loaded_files_are_known() {
    let mut a = song("a", "x", 1, 1);
    a.file_path = Some("/lib/a.mp3".into());
    let b = song("b", "x", 1, 1);
    let mut c = song("c", "x", 1, 1);
    c.file_path = Some("/lib/c.mp3".into());
    let loaded = loaded_paths(&vec![a, b, c]);
    assert_eq!(loaded, vec!["/lib/a.mp3".to_string(), "/lib/c.mp3".to_string()]);
    assert!(is_loaded(&loaded, &"/lib/c.mp3".to_string()));
    assert!(!is_loaded(&loaded, &"/lib/b.mp3".to_string()));
}

#[test]
fn saved_songs_whose_file_vanished_are_dropped() {
    let mut a = song("a", "x", 1, 1);
    a.file_path = Some("/gone.mp3".into());
    let b = song("b", "x", 1, 1);
    let mut c = song("c", "x", 1, 1);
    c.file_path = Some("/here.mp3".into());
    let kept = keep_present(vec![a, b, c], &vec![false, false, true]);
    let titles: Vec<&str> = kept.iter().map(|s| s.title.as_str()).collect();
    assert_eq!(titles, vec!["b", "c"]);
}

#[test]
fn empty_snapshots() {
    let l = LibrarySnapshot::default();
    assert!(l.songs.is_empty());
    assert_eq!(l.next_id, 0);
    let p = PlaylistsSnapshot::default();
    assert!(p.playlists.is_empty());
    assert_eq!(p.next_id, 0);
}

#[test]
fn closing_equals_stopping_each_song() {
    let lib = sample_library();
    let mut st = State::new();
    let mut closed = Playback::new();
    let mut owned = HashSet::new();
    for id in [1, 2, 3] {
        handle_client_msg(ClientMsg::Play { song_id: id }, &lib, &mut st, &mut closed, &mut owned);
    }
    let mut stopped = Playback::new();
    let mut owned2 = HashSet::new();
    for id in [1, 2, 3] {
        handle_client_msg(ClientMsg::Play { song_id: id }, &lib, &mut st, &mut stopped, &mut owned2);
    }
    closed.mark_playing(&9);
    stopped.mark_playing(&9);
    release_owned(&mut owned, &mut closed);
    for id in [3, 1, 2] {
        handle_client_msg(ClientMsg::Stop { song_id: id }, &lib, &mut st, &mut stopped, &mut owned2);
    }
    for id in [1, 2, 3, 9] {
        assert_eq!(closed.is_playing(&id), stopped.is_playing(&id));
    }
    assert!(closed.is_playing(&9));
}

#[test]
fn requests_refused_only_when_the_playlist_counter_is_full() {
    let lib = sample_library();
    let mut st = State::from_snapshot(vec![], u64::MAX);
    let mut pb = Playback::new();
    let mut owned = HashSet::new();
    assert!(handle_request(ClientMsg::PlaylistCreate { name: "x".into() }, &lib, &mut st, &mut pb, &mut owned).is_none());
    assert!(st.playlists.is_empty());
    let r = handle_request(ClientMsg::Play { song_id: 1 }, &lib, &mut st, &mut pb, &mut owned).unwrap();
    assert!(matches!(r.event, Some(ServerEvent::NowPlaying { song_id: 1, .. })));
    let mut st = State::new();
    let r = handle_request(ClientMsg::PlaylistCreate { name: "x".into() }, &lib, &mut st, &mut pb, &mut owned).unwrap();
    assert!(r.save);
    assert_eq!(st.playlists.len(), 1);
}

#[test]
fn a_library_is_full_at_the_largest_id() {
    let mut lib = Library::new(u64::MAX - 1);
    assert!(lib.can_add());
    assert_eq!(lib.add_song(song("a", "x", 1, 1)), u64::MAX - 1);
    assert!(!lib.can_add());
}

#[test]
fn embedded_picture_becomes_the_cover() {
    let s = song_from_id3(None, None, None, None, None, Some(("image/png".into(), vec![0x89, b'P', b'N', b'G'])), "p".into());
    assert_eq!(s.cover_url.as_deref(), Some("data:image/png;base64,iVBORw=="));
}

#[test]
fn picture_urls_use_standard_base64() {
    assert_eq!(picture_url("image/jpeg", &vec![]), "data:image/jpeg;base64,");
    assert_eq!(picture_url("a", &b"f".to_vec()), "data:a;base64,Zg==");
    assert_eq!(picture_url("a", &b"fo".to_vec()), "data:a;base64,Zm8=");
    assert_eq!(picture_url("a", &b"foo".to_vec()), "data:a;base64,Zm9v");
    assert_eq!(picture_url("a", &b"foobar".to_vec()), "data:a;base64,Zm9vYmFy");
    assert_eq!(picture_url("a", &vec![0xff, 0xfe, 0x3e]), "data:a;base64,//4+");
}

#[test]
fn song_ids_start_at_one_on_a_first_start() {
    let mut lib = Library::from_snapshot(vec![], 0);
    assert_eq!(lib.add_song(song("a", "x", 1, 1)), 1);
    let mut lib = Library::from_snapshot(vec![], 7);
    assert_eq!(lib.add_song(song("a", "x", 1, 1)), 7);
}

#[test]
fn sorting_keeps_ids_without_a_song_at_the_end() {
    let lib = sample_library();
    let st = State::new();
    let (st, pid) = spoticry_server::playlists::ops::create(&st, "p".into()).unwrap();
    let mut st = st;
    for sid in [3, 99, 1, 42, 2, 99] {
        st = spoticry_server::playlists::ops::add_song(&st, pid, sid);
    }
    let sorted = playlist_sort(&lib, &st, pid, SortBy::Year).unwrap();
    let order: Vec<u64> = sorted.playlists.get(&pid).unwrap().songs.iter().cloned().collect();
    assert_eq!(order, vec![2, 1, 3, 99, 42, 99]);
}

#[test]
fn mp3_files_are_picked_and_sorted() {
    let names: Vec<String> = ["b.mp3", "notes.txt", ".mp3", "A.mp3", "a.MP3", "c.mp3.bak", "..mp3", "a.b.mp3", "x.mp3"]
        .iter()
        .map(|s| s.to_string())
        .collect();
    let picked = select_mp3(names.clone());
    let mut expected: Vec<String> = names
        .iter()
        .filter(|n| std::path::Path::new(n.as_str()).extension().and_then(|e| e.to_str()) == Some("mp3"))
        .cloned()
        .collect();
    expected.sort();
    assert_eq!(picked, expected);
    assert_eq!(picked, vec!["..mp3", "A.mp3", "a.b.mp3", "b.mp3", "x.mp3"]);
}
