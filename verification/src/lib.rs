//! Minimal perfect hash maps built with the compress-hash-displace scheme.
//!
//! A fixed set of key/value pairs is turned into an immutable table in which
//! every key owns exactly one slot. Construction searches, bucket by bucket,
//! for displacement constants that place all keys without collision; lookup
//! recomputes one keyed hash, applies the bucket's displacement and compares
//! a single candidate entry.
pub mod buckets;
pub mod dedup;
pub mod generate;
pub mod hash;
pub mod keys;
pub mod lanes;
pub mod map;
pub mod placement;
pub mod search;
