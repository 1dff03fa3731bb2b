//! Extraction of residence consumption tables from wiki pages.
//!
//! The library holds the text logic: locating `<tag …>…</tag>` spans,
//! classifying tables by their title, parsing rows into cells, and the
//! `|`-joined cache format. Fetching pages and touching the disk is left to
//! the caller.

pub mod text;
pub mod extract;
pub mod table;
pub mod cache;
pub mod site;
pub mod log;
