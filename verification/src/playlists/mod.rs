//! Playlists as a purely functional module: every operation takes the
//! current state and returns a new one, over persistent `im` collections.

pub mod ops;
pub mod state;
