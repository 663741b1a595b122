//! A modular lossless data-compression toolkit: reversible byte-stream
//! transformations (run-length, move-to-front, Burrows-Wheeler), an adaptive
//! Fenwick-tree statistics engine with a pluggable symbol alphabet, a 32-bit
//! integer range coder driven by those statistics, and Adler-32 / CRC-32
//! integrity checksums.

pub mod checksums;
pub mod crc32;
pub mod transform;
pub mod runlength;
pub mod movetofront;
pub mod statistics;
pub mod fenwick_map;
pub mod fenwick;
pub mod coding;
pub mod range;
pub mod bwt;
