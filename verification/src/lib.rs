//! An event engine's logic: append-only boxes with explicit loss, the reads and
//! watch streams over them, and the decisions of the HTTP and WebSocket surface
//! in front of them.
//!
//! A box assigns every record a seq and keeps records until a cap or their age
//! takes them. What is lost that way is told to every reader it concerns, as a
//! tombstone with the exact range; what a reader asked not to get is skipped in
//! silence. [`engine`] holds the boxes and the reads, [`sched`] the priorities,
//! [`http`] the surface, [`storage`] the file seam. I/O, sockets and locks are
//! the business of the server that uses this crate.

pub mod auth;
pub mod clock;
pub mod config;
pub mod decay;
pub mod engine;
pub mod error;
pub mod http;
pub mod json;
pub mod name_map;
pub mod sched;
pub mod storage;
pub mod text;
pub mod types;
