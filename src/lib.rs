//! A zero-copy style archive for string-keyed hash maps.
//!
//! A source map is archived into a flat table of entries and bucket slots.
//! Each occupied slot holds a position-relative offset to its entry, and
//! entries are placed by a fixed, seed-free hash with linear probing, so any
//! reader can look keys up without rebuilding a hash table.
pub mod relptr;
pub mod hash;
pub mod source;
pub mod table;
pub mod laws;

