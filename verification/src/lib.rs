//! Collects the text of the files under a directory into one fenced document.
//!
//! The library holds the verified core: resolving exclusion rules into a set
//! of path prefixes, walking a directory tree while pruning excluded entries,
//! narrowing the surviving files by an extension allow-list, and rendering
//! each file's text as a fenced block. Reading the filesystem and delivering
//! the result (clipboard or output file) are left to the surrounding binary.

pub mod filter;
pub mod ignore_rules;
pub mod pipeline;
pub mod render;
pub mod walker;
