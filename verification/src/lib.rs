//! A music library: the media server's routing and registry, the rules that
//! turn downloaded beatmap folders and loose audio files into a track list,
//! and the playback queue.
use vstd::prelude::*;

pub mod text;
pub mod paths;
pub mod clock;
pub mod audio_server;
pub mod osu;
pub mod order;
pub mod library;
pub mod playback;
pub mod data_uri;
pub mod archive;

verus! {
} // verus!
