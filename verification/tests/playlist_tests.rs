use spoticry_server::domain::{Playlist, Song};
use spoticry_server::playlists::ops;
use spoticry_server::playlists::state::State;

fn song(id: u64, title: &str, genre: &str, year: u16, secs: u32) -> Song {
    Song {
        id,
        title: title.into(),
        artist: "A".into(),
        album: "B".into(),
        genre: genre.into(),
        year,
        duration_secs: secs,
        file_path: None,
        spotify_preview_url: None,
        cover_url: None,
    }
}

fn songs_of(st: &State, pid: u64) -> Vec<u64> {
    st.playlists.get(&pid).unwrap().songs.iter().cloned().collect()
}

fn playlist(ids: &[u64]) -> Playlist {
    Playlist { id: 1, name: "p".into(), songs: ids.iter().cloned().collect() }
}

#[test]
fn new_state_starts_at_one() {
    let st = State::new();
    assert!(st.playlists.is_empty());
    assert_eq!(st.next_id, 1);
    let d = State::default();
    assert_eq!(d.next_id, 0);
}

#[test]
fn create_trims_and_numbers() {
    let st = State::new();
    let (st2, id) = ops::create(&st, "  Road trip  ".into()).unwrap();
    assert_eq!(id, 1);
    assert_eq!(st2.next_id, 2);
    let p = st2.playlists.get(&1).unwrap();
    assert_eq!(p.name, "Road trip");
    assert_eq!(p.id, 1);
    assert!(p.songs.is_empty());
    // The given state is left as it was.
    assert!(st.playlists.is_empty());
    assert_eq!(st.next_id, 1);
}

#[test]
fn create_refuses_blank_names() {
    let st = State::new();
    assert!(ops::create(&st, "".into()).is_none());
    assert!(ops::create(&st, " \t\n ".into()).is_none());
}

#[test]
fn create_refuses_a_name_in_use_whatever_its_case() {
    let st = State::new();
    let (st, _) = ops::create(&st, "Rock".into()).unwrap();
    assert!(ops::create(&st, "rock".into()).is_none());
    assert!(ops::create(&st, "  ROCK ".into()).is_none());
    let (st, id) = ops::create(&st, "Rock 2".into()).unwrap();
    assert_eq!(id, 2);
    assert_eq!(st.playlists.len(), 2);
}

#[test]
fn delete_removes_only_that_playlist() {
    let st = State::new();
    let (st, a) = ops::create(&st, "a".into()).unwrap();
    let (st, b) = ops::create(&st, "b".into()).unwrap();
    let st2 = ops::delete(&st, a);
    assert!(st2.playlists.get(&a).is_none());
    assert!(st2.playlists.get(&b).is_some());
    assert_eq!(st2.next_id, st.next_id);
    let st3 = ops::delete(&st2, 99);
    assert_eq!(st3.playlists.len(), 1);
}

#[test]
fn add_and_remove_songs() {
    let st = State::new();
    let (st, pid) = ops::create(&st, "mix".into()).unwrap();
    let st = ops::add_song(&st, pid, 7);
    let st = ops::add_song(&st, pid, 8);
    let st = ops::add_song(&st, pid, 7);
    assert_eq!(songs_of(&st, pid), vec![7, 8, 7]);
    let st2 = ops::remove_song(&st, pid, 7);
    assert_eq!(songs_of(&st2, pid), vec![8]);
    // The earlier state still holds its songs.
    assert_eq!(songs_of(&st, pid), vec![7, 8, 7]);
    // Unknown playlists are ignored.
    let st3 = ops::add_song(&st2, 42, 1);
    assert!(st3.playlists.get(&42).is_none());
    let st4 = ops::remove_song(&st3, 42, 1);
    assert_eq!(st4.playlists.len(), 1);
}

#[test]
fn remove_undoes_add_of_a_new_song() {
    let st = State::new();
    let (st, pid) = ops::create(&st, "mix".into()).unwrap();
    let st = ops::add_song(&st, pid, 1);
    let st = ops::add_song(&st, pid, 2);
    let back = ops::remove_song(&ops::add_song(&st, pid, 3), pid, 3);
    assert_eq!(songs_of(&back, pid), songs_of(&st, pid));
}

#[test]
fn reorder_replaces_the_order() {
    let st = State::new();
    let (st, pid) = ops::create(&st, "mix".into()).unwrap();
    let st = ops::add_song(&st, pid, 1);
    let st = ops::add_song(&st, pid, 2);
    let order: im::Vector<u64> = vec![2, 1].into_iter().collect();
    let st2 = ops::reorder(&st, pid, order.clone());
    assert_eq!(songs_of(&st2, pid), vec![2, 1]);
    let st3 = ops::reorder(&st2, 77, order);
    assert!(st3.playlists.get(&77).is_none());
}

#[test]
fn filter_keeps_playlist_order_and_skips_unknown_ids() {
    let library = vec![song(1, "a", "Rock", 1990, 10), song(2, "b", "Pop", 2000, 20), song(3, "c", "Rock", 2010, 30)];
    let p = playlist(&[3, 9, 1, 2]);
    let rock: Vec<u64> = ops::filter_songs(&p, &library, |s| s.genre == "Rock").iter().map(|s| s.id).collect();
    assert_eq!(rock, vec![3, 1]);
    let all: Vec<u64> = ops::filter_songs(&p, &library, |_| true).iter().map(|s| s.id).collect();
    assert_eq!(all, vec![3, 1, 2]);
}

#[test]
fn filter_takes_the_first_song_with_an_id() {
    let library = vec![song(1, "first", "Rock", 1, 1), song(1, "second", "Rock", 1, 1)];
    let p = playlist(&[1]);
    let r = ops::filter_songs(&p, &library, |_| true);
    assert_eq!(r.len(), 1);
    assert_eq!(r[0].title, "first");
}

#[test]
fn sort_is_stable() {
    let library = vec![
        song(1, "b", "x", 2000, 30),
        song(2, "a", "x", 1990, 30),
        song(3, "c", "x", 2000, 10),
        song(4, "a", "x", 1980, 20),
    ];
    let p = playlist(&[1, 2, 3, 4]);
    let by_year: Vec<u64> = ops::sort_by(&p, &library, |s| s.year).iter().map(|s| s.id).collect();
    assert_eq!(by_year, vec![4, 2, 1, 3]);
    let by_title: Vec<u64> = ops::sort_by(&p, &library, |s| s.title.clone()).iter().map(|s| s.id).collect();
    assert_eq!(by_title, vec![2, 4, 1, 3]);
    let by_secs: Vec<u64> = ops::sort_by(&p, &library, |s| s.duration_secs).iter().map(|s| s.id).collect();
    assert_eq!(by_secs, vec![3, 4, 1, 2]);
}

#[test]
fn sort_by_title_compares_code_points() {
    let library = vec![song(1, "b", "x", 1, 1), song(2, "B", "x", 1, 1), song(3, "ab", "x", 1, 1), song(4, "a", "x", 1, 1)];
    let p = playlist(&[1, 2, 3, 4]);
    let r: Vec<u64> = ops::sort_by(&p, &library, |s| s.title.clone()).iter().map(|s| s.id).collect();
    assert_eq!(r, vec![2, 4, 3, 1]);
}

#[test]
fn total_duration_sums_found_songs() {
    let library = vec![song(1, "a", "x", 1, 100), song(2, "b", "x", 1, 250)];
    assert_eq!(ops::total_duration(&playlist(&[1, 2, 1, 5]), &library), 450);
    assert_eq!(ops::total_duration(&playlist(&[]), &library), 0);
}

#[test]
fn snapshot_round_trip() {
    let st = State::new();
    let (st, a) = ops::create(&st, "a".into()).unwrap();
    let (st, b) = ops::create(&st, "b".into()).unwrap();
    let st = ops::add_song(&st, b, 4);
    let (pls, next) = st.to_snapshot();
    assert_eq!(pls.len(), 2);
    assert_eq!(next, 3);
    let back = State::from_snapshot(pls, next);
    assert_eq!(back.next_id, 3);
    assert_eq!(back.playlists.get(&a).unwrap().name, "a");
    assert_eq!(songs_of(&back, b), vec![4]);
}

#[test]
fn from_snapshot_fixes_a_zero_counter_and_later_playlists_win() {
    let p1 = Playlist { id: 5, name: "old".into(), songs: im::Vector::new() };
    let p2 = Playlist { id: 5, name: "new".into(), songs: im::Vector::new() };
    let st = State::from_snapshot(vec![p1, p2], 0);
    assert_eq!(st.next_id, 1);
    assert_eq!(st.playlists.len(), 1);
    assert_eq!(st.playlists.get(&5).unwrap().name, "new");
}

#[test]
fn clone_of_playlist_and_state_keeps_contents() {
    let p = playlist(&[1, 2]);
    let q = p.clone();
    assert_eq!(q.id, 1);
    assert_eq!(q.name, "p");
    assert_eq!(q.songs.iter().cloned().collect::<Vec<_>>(), vec![1, 2]);
    let st = State::new();
    let (st, pid) = ops::create(&st, "x".into()).unwrap();
    let c = st.clone();
    assert_eq!(c.next_id, st.next_id);
    assert_eq!(c.playlists.get(&pid).unwrap().name, "x");
}

#[test]
fn checked_total_duration_reports_overflow() {
    let library = vec![song(1, "a", "x", 1, 100), song(2, "b", "x", 1, u32::MAX - 50)];
    assert_eq!(ops::checked_total_duration(&playlist(&[1, 5]), &library), Some(100));
    assert_eq!(ops::checked_total_duration(&playlist(&[]), &library), Some(0));
    assert_eq!(ops::checked_total_duration(&playlist(&[2, 1]), &library), None);
    assert_eq!(ops::checked_total_duration(&playlist(&[2]), &library), Some(u32::MAX - 50));
}
