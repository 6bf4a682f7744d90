//! Core of a music server: the song library with its genre index, the
//! playback registry, the purely functional playlist state, and the
//! decisions that the network and command-line front ends delegate here.

pub mod cli;
pub mod cover;
pub mod domain;
pub mod http_stream;
pub mod library;
pub mod library_scan;
pub mod persistent;
pub mod text;
pub mod ws;
pub mod persistence;
pub mod playback;
pub mod playlists;
pub mod protocol;
pub mod spotify;
