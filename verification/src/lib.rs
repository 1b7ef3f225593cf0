//! A line-oriented view over a large read-only byte buffer (typically a
//! memory-mapped log file), with a piece table for edits.

pub mod models;
pub mod outside;
pub mod pager;
pub mod scan;
pub mod document;
pub mod index;
pub mod lines;
pub mod engine;
pub mod text;
pub mod edit;
pub mod render;
pub mod laws;
pub mod matching;
pub mod search;
pub mod indexing;
pub mod save;
