use spoticry_server::domain::Song;
use spoticry_server::library::{Library, LibraryError};
use spoticry_server::playback::Playback;

fn sample_song() -> Song {
    Song {
        id: 0,
        title: "Test".into(),
        artist: "Tester".into(),
        album: "Album".into(),
        genre: "Rock".into(),
        year: 2020,
        duration_secs: 180,
        file_path: None,
        spotify_preview_url: None,
        cover_url: None,
    }
}

fn song(title: &str, genre: &str, year: u16) -> Song {
    Song {
        id: 0,
        title: title.into(),
        artist: "A".into(),
        album: "B".into(),
        genre: genre.into(),
        year,
        duration_secs: 100,
        file_path: None,
        spotify_preview_url: None,
        cover_url: None,
    }
}

fn ids(songs: &[Song]) -> Vec<u64> {
    let mut v: Vec<u64> = songs.iter().map(|s| s.id).collect();
    v.sort();
    v
}

#[test]
fn cannot_delete_playing_song() {
    let mut lib = Library::new(0);
    let id = lib.add_song(sample_song());

    let mut playback = Playback::new();
    playback.mark_playing(&id);

    let result = lib.remove_song(id, &playback);
    assert!(result.is_err(), "remove_song debe fallar mientras la canción está sonando");
    assert_eq!(
        result.unwrap_err().to_string(),
        "CANNOT_DELETE_PLAYING",
        "el error debe ser exactamente el código del enunciado"
    );

    assert!(lib.get(id).is_some(), "la canción debe seguir en la biblioteca");
}

#[test]
fn can_delete_song_when_not_playing() {
    let mut lib = Library::new(0);
    let id = lib.add_song(sample_song());

    let playback = Playback::new();

    assert!(lib.remove_song(id, &playback).is_ok());
    assert!(lib.get(id).is_none(), "la canción debió ser eliminada");
}

#[test]
fn can_delete_after_stop() {
    let mut lib = Library::new(0);
    let id = lib.add_song(sample_song());

    let mut playback = Playback::new();
    playback.mark_playing(&id);
    playback.mark_stopped(&id);

    assert!(lib.remove_song(id, &playback).is_ok());
}

#[test]
fn error_code_text() {
    assert_eq!(LibraryError::CannotDeletePlaying.to_string(), "CANNOT_DELETE_PLAYING");
}

#[test]
fn add_song_assigns_consecutive_ids() {
    let mut lib = Library::new(5);
    let a = lib.add_song(song("One", "Rock", 2000));
    let b = lib.add_song(song("Two", "Pop", 2001));
    assert_eq!((a, b), (5, 6));
    assert_eq!(lib.get(5).unwrap().title, "One");
    assert_eq!(lib.get(5).unwrap().id, 5);
    assert_eq!(lib.get(6).unwrap().id, 6);
    let (all, next) = lib.to_snapshot();
    assert_eq!(ids(&all), vec![5, 6]);
    assert_eq!(next, 7);
}

#[test]
fn remove_unknown_id_is_ok_and_changes_nothing() {
    let mut lib = Library::new(1);
    lib.add_song(song("One", "Rock", 2000));
    let playback = Playback::new();
    assert!(lib.remove_song(42, &playback).is_ok());
    assert_eq!(lib.list().len(), 1);
}

#[test]
fn title_search_ignores_case() {
    let mut lib = Library::new(1);
    lib.add_song(song("Bohemian Rhapsody", "Rock", 1975));
    lib.add_song(song("Imagine", "Pop", 1971));
    lib.add_song(song("RHAPSODY in Blue", "Jazz", 1924));
    assert_eq!(ids(&lib.search_by_title("rhapsody")), vec![1, 3]);
    assert_eq!(ids(&lib.search_by_title("IMAG")), vec![2]);
    assert_eq!(ids(&lib.search_by_title("")), vec![1, 2, 3]);
    assert!(lib.search_by_title("zzz").is_empty());
}

#[test]
fn genre_search_is_exact_and_in_filing_order() {
    let mut lib = Library::new(1);
    lib.add_song(song("a", "Rock", 1));
    lib.add_song(song("b", "Pop", 2));
    lib.add_song(song("c", "Rock", 3));
    let rock: Vec<u64> = lib.search_by_genre("Rock").iter().map(|s| s.id).collect();
    assert_eq!(rock, vec![1, 3]);
    assert!(lib.search_by_genre("rock").is_empty());
    assert!(lib.search_by_genre("Jazz").is_empty());
}

#[test]
fn genre_index_follows_removals() {
    let mut lib = Library::new(1);
    lib.add_song(song("a", "Rock", 1));
    lib.add_song(song("b", "Rock", 2));
    let playback = Playback::new();
    lib.remove_song(1, &playback).unwrap();
    let rock: Vec<u64> = lib.search_by_genre("Rock").iter().map(|s| s.id).collect();
    assert_eq!(rock, vec![2]);
    lib.remove_song(2, &playback).unwrap();
    assert!(lib.search_by_genre("Rock").is_empty());
    let id = lib.add_song(song("c", "Rock", 3));
    assert_eq!(id, 3);
    let rock: Vec<u64> = lib.search_by_genre("Rock").iter().map(|s| s.id).collect();
    assert_eq!(rock, vec![3]);
}

#[test]
fn year_range_is_inclusive() {
    let mut lib = Library::new(1);
    lib.add_song(song("a", "Rock", 1989));
    lib.add_song(song("b", "Rock", 1990));
    lib.add_song(song("c", "Rock", 2000));
    lib.add_song(song("d", "Rock", 2001));
    assert_eq!(ids(&lib.search_by_year_range(1990, 2000)), vec![2, 3]);
    assert!(lib.search_by_year_range(2000, 1990).is_empty());
}

#[test]
fn snapshot_round_trip_keeps_songs_and_index() {
    let mut lib = Library::new(1);
    lib.add_song(song("a", "Rock", 1));
    lib.add_song(song("b", "Pop", 2));
    lib.add_song(song("c", "Rock", 3));
    let (songs, next) = lib.to_snapshot();
    let back = Library::from_snapshot(songs, next);
    assert_eq!(ids(&back.list()), vec![1, 2, 3]);
    assert_eq!(ids(&back.search_by_genre("Rock")), vec![1, 3]);
    let mut back = back;
    assert_eq!(back.add_song(song("d", "Pop", 4)), 4);
}

#[test]
fn from_snapshot_later_song_wins() {
    let mut first = song("first", "Rock", 1);
    first.id = 9;
    let mut second = song("second", "Pop", 2);
    second.id = 9;
    let lib = Library::from_snapshot(vec![first, second], 10);
    assert_eq!(lib.list().len(), 1);
    assert_eq!(lib.get(9).unwrap().title, "second");
    assert!(lib.search_by_genre("Rock").is_empty());
    assert_eq!(lib.search_by_genre("Pop").len(), 1);
}

#[test]
fn remove_after_add_restores_library() {
    let mut lib = Library::new(1);
    lib.add_song(song("a", "Rock", 1));
    let playback = Playback::new();
    let id = lib.add_song(song("b", "Rock", 2));
    lib.remove_song(id, &playback).unwrap();
    assert_eq!(ids(&lib.list()), vec![1]);
    assert_eq!(ids(&lib.search_by_genre("Rock")), vec![1]);
}

#[test]
fn playback_tracks_marks() {
    let mut p = Playback::new();
    assert!(!p.is_playing(&3));
    p.mark_playing(&3);
    assert!(p.is_playing(&3));
    p.mark_stopped(&3);
    assert!(!p.is_playing(&3));
}

#[test]
fn registry_follows_the_last_mark() {
    let mut p = Playback::new();
    p.mark_playing(&1);
    p.mark_playing(&2);
    p.mark_stopped(&1);
    p.mark_playing(&1);
    p.mark_stopped(&2);
    p.mark_stopped(&3);
    assert!(p.is_playing(&1));
    assert!(!p.is_playing(&2));
    assert!(!p.is_playing(&3));
    assert_eq!(p.is_playing(&1), p.is_playing(&1));
}

#[test]
fn genre_search_survives_a_round_trip_as_a_set() {
    let mut lib = Library::new(1);
    for (i, g) in ["Rock", "Pop", "Rock", "Jazz", "Rock"].iter().enumerate() {
        lib.add_song(song(&format!("s{i}"), g, 2000));
    }
    let playback = Playback::new();
    lib.remove_song(3, &playback).unwrap();
    let (songs, next) = lib.to_snapshot();
    let back = Library::from_snapshot(songs, next);
    for g in ["Rock", "Pop", "Jazz", "Metal"] {
        assert_eq!(ids(&back.search_by_genre(g)), ids(&lib.search_by_genre(g)));
        let filtered: Vec<Song> = lib.list().into_iter().filter(|s| s.genre == g).collect();
        assert_eq!(ids(&lib.search_by_genre(g)), ids(&filtered));
    }
}

#[test]
fn a_new_song_is_found_once_by_its_genre() {
    let mut lib = Library::from_snapshot(vec![], 0);
    lib.add_song(song("a", "Rock", 1));
    let playback = Playback::new();
    lib.remove_song(1, &playback).unwrap();
    let id = lib.add_song(song("b", "Rock", 2));
    let found: Vec<u64> = lib.search_by_genre("Rock").iter().map(|s| s.id).collect();
    assert_eq!(found, vec![id]);
}
