//! Playback position and word-level lyrics of NetEase Cloud Music.
//!
//! The client reports which track plays and at which whole second.
//! [`playback::Poller`] turns those reports into snapshots with a millisecond
//! position and into events; [`lyrics::TrackPayload`] turns the lyric texts of a
//! track into timed lines. [`cdp`] and [`server`] hold the decisions of the two
//! protocols around them, [`cache`] and [`config`] the names of files and the
//! settings. Sockets, files and the environment are up to the program that uses
//! the library.

pub mod cache;
pub mod cdp;
pub mod config;
pub mod json;
pub mod lrc;
pub mod lyrics;
pub mod model;
pub mod playback;
pub mod server;
pub mod text;
pub mod timeline;
pub mod yrc;
