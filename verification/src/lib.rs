//! Single-pass aggregation of `key;value` temperature records.
//!
//! The library ingests a byte buffer of newline-terminated records, each of
//! the form `<key>;<fixed-point value>`, groups the records by key, and
//! computes the running minimum, maximum, sum and count for every key. The
//! finished per-key summaries are returned sorted by key in byte-wise
//! lexicographic order. All values are tenths-scaled integers: the text
//! `-3.2` is carried as `-32`.

pub mod aggregation;
pub mod error;
pub mod memops;
pub mod pipeline;
pub mod records;
pub mod station_map;
pub mod temperature_summary;
