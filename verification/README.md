# spoticry_server

The core of a small music server (song library, playlists, playback
registry, client protocol decisions), written in Verus and proved against
its contracts.

- `src/` — the verified library:
  - `library.rs`: the song library with its genre index; adding, removing
    (refused while a song plays), the three searches, snapshots.
  - `playlists/`: the immutable playlist state and its pure operations
    (create, delete, add, remove, reorder, filter, stable sort, total).
  - `playback.rs`: the set of songs being played.
  - `ws.rs`: what each client request does and answers.
  - `http_stream.rs`, `library_scan.rs`, `spotify.rs`, `cli.rs`: the
    decisions behind streaming, the folder scan, Spotify tracks and the
    command line.
  - `cover.rs`: an embedded picture as a base64 `data:` URL.
  - `text.rs`: white space, trimming, substring search and number parsing
    over character sequences.
  - `persistent.rs`: the `im` collections, with the contracts the library
    relies on.
- `tests/` — tests of the library on concrete values.
- `app/` — the executable: files, network, terminal, Spotify Web API.
