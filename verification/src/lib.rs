//! Parallel equi-join of sorted, line-oriented byte datasets.
//!
//! A dataset is an ordered list of byte files, each newline-terminated and
//! sorted by a key field. The crate views the list as one logical byte
//! stream, partitions the first dataset into byte ranges, locates the
//! matching ranges of the second dataset by binary search on keys, and
//! merge-joins each pair of ranges into a per-partition output buffer.

pub mod byte_range_line_reader;
pub mod line_reader;
pub mod model;
pub mod output_file;
pub mod parallel_join;
pub mod multi_file_reader;
