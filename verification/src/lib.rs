//! The application layer of spoonstill: the rules that decide how a folder of
//! stills, recordings and scripts becomes a film, stated and proved.
//!
//! Everything here is a decision over plain values. Reading and writing the
//! disk, spawning FFmpeg and talking to a window are the caller's; what they
//! hand over is a listing, a size, a line of text, and what comes back is what
//! to do with it.

pub mod arrange;
pub mod audio;
pub mod capacity;
pub mod diagnostics;
pub mod film;
pub mod formats;
pub mod import;
pub mod ingest;
pub mod machine;
pub mod natural;
pub mod order;
pub mod pool;
pub mod render;
pub mod subtitles;
pub mod text;
pub mod voice;
pub mod window;

use vstd::prelude::*;

verus! {

/// This crate's package name.
pub const CRATE_NAME: &'static str = "spoonstill-app";

} // verus!
