//! Finding MP3 files under a path and playing them one after another.
//!
//! `extension` decides which paths name MP3 files, `discovery` walks a directory
//! tree as a state machine driven by the caller's file-system reads, and
//! `playback` sequences a batch of files so that one failed file never stops the
//! rest.

pub mod discovery;
pub mod extension;
pub mod playback;
