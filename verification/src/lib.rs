//! Clipboard history library: a verified in-memory model of the clipboard
//! database and the text rules (tag detection, trimming, search matching)
//! that the clipboard manager applies to what it records.

pub mod detect;
pub mod keysort;
pub mod like;
pub mod model;
pub mod monitor;
mod outside;
pub mod text;
pub mod textsort;
pub mod apps;
pub mod commands;
pub mod db;
pub mod laws;
