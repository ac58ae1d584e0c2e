//! Deterministic reordering of image files in a folder.
//!
//! The library has two halves: a scanner that filters and sorts a folder
//! listing down to image files, and a pipeline that computes a reordered
//! copy plan for those files.  All decisions are made here, over plain
//! values; the filesystem itself is driven by the host around the library.

pub mod errors;
pub mod paths;
pub mod pipeline;
pub mod reorder;
pub mod scanner;
