//! Progress parsing and ETA estimation for a batch video-transcoding driver.
//!
//! The encoder's diagnostic stream is split into lines, scanned for the
//! declared media length and the current position, and turned into
//! progress snapshots by a small state machine. Everything here is pure:
//! the process, the clock and the console belong to the caller.
pub mod duration;
pub mod extract;
pub mod files;
pub mod lines;
pub mod outcome;
pub mod profile;
pub mod scan;
pub mod seconds;
pub mod session;
pub mod text;
pub mod tracker;
