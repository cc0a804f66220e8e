//! A codec for the NBT binary tree format: a tagged, self-describing
//! serialization scheme in which every value is preceded by a one-byte type
//! tag and, in named contexts, a length-prefixed UTF-8 name.
//!
//! `kind` holds the tag registry; `bytes` the fixed-width big-endian codec;
//! `value` the typed value tree and its mathematical model; `wire` the wire
//! format stated mathematically in both directions; `decode` the tag-driven
//! recursive-descent decoder; `encode` the nesting-state machine and the
//! tree-driven encoder built on it; `laws` the round-trip laws.

pub mod kind;
pub mod error;
pub mod bytes;
pub mod value;
pub mod wire;
pub mod decode;
pub mod encode;
pub mod laws;
