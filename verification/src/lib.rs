//! The logic of a parallel HTTP downloader.
//!
//! Two ways of downloading a file stand side by side. [`download`] cuts it into segments of a
//! chosen length and hands them out to a number of transfers ([`transfer`], [`progress`]);
//! [`jjp`] splits it into a chosen number of tasks and keeps each of them until it is
//! complete ([`run`], [`tally`], [`utils`]). [`map_file`] is the memory-mapped file that the
//! latter can write to, and [`content`] says what either leaves in the file.
//!
//! Everything here is a function of plain values. Whoever drives a download makes the
//! requests, writes the bytes, waits, and reports what happened.

pub mod text;
pub mod single;
pub mod rounding;
pub mod closeness;
pub mod clock;
pub mod headers;
pub mod utils;
pub mod map_file;
pub mod jjp;
pub mod run;
pub mod tally;
pub mod progress;
pub mod download;
pub mod transfer;
pub mod content;

pub use download::{JjP, JjPBuilder};
pub use map_file::MapFile;
