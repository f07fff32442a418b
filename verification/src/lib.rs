//! A verified splitter and joiner for composite text cartridge files.
//!
//! A composite file holds a header, one or more code segments separated by
//! scissor lines, and typed resource blocks introduced by tag lines. The
//! splitter tokenizes such a file into its parts; the joiner reassembles a
//! composite file from parts, order records, and a version record.

pub mod byteops;
pub mod components;
pub mod format;
pub mod joiner;
pub mod laws;
pub mod part;
pub mod splitter;
pub mod textlines;
