//! Sorting of marked line blocks in text files.
//!
//! A block is a run of lines between a start marker and an end marker, each a
//! comment line in the syntax of the file's language. The lines of every
//! closed block are put in case-insensitive order; everything else is kept.

pub mod git_files;
pub mod text;
pub mod sorting;
pub mod delimiter;
pub mod blocks;
pub mod scanner;
pub mod lines;
pub mod content;
pub mod laws;
pub mod report;
