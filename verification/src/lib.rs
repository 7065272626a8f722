//! A static, rebuildable key-value map backed by a minimal perfect hash
//! index: given a finite key set, an index function maps each key to a
//! dense slot with no collisions, and values live directly in a slot array
//! with no probing and no tombstones. Every mutation rebuilds the whole
//! index from the full key set; lookups hash the key, ask the index
//! function for a slot, and check a stored verification hash before
//! answering.
//!
//! `PhMap` is the slot-addressed map over byte keys; `PhStrMap` wraps it
//! for string keys, trimming every key to the smallest byte range that
//! still distinguishes all keys, found by `smallest_uncommon_range`.

pub mod bytes;
pub mod index;
pub mod laws;
pub mod map;
pub mod range;
pub mod strmap;

pub use map::{PhMap, ExtendError, take_unchecked};
pub use range::smallest_uncommon_range;
pub use strmap::{PhStrMap, StrExtendError};
