//! A hash table with an open-addressed, tag-encoded slot layout.
//!
//! The table keeps its entries in fixed power-of-two generations of slots.
//! Each slot packs its state (live, tombstone, copied, locked) into the low
//! bits of a word, next to a parallel array of one-byte hash fragments that
//! filters probes sixteen slots at a time. Growth allocates the next
//! generation and migrates the slots across, clearing tombstones.

pub mod counter;
pub mod group;
pub mod hashmap;
pub mod laws;
pub mod probe;
pub mod table;
pub mod tagged;
pub mod utils;
