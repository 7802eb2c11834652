//! Marshaling between stored byte representations and in-memory document trees.
//!
//! `value` holds the document tree and its mathematical model, `wire` the
//! binary layout, `encode` and `decode` the two directions of the codec,
//! `laws` what the two do together, and `storage` the materialization of a
//! stored value and the release decision for a freshly allocated buffer.
pub mod value;
pub mod wire;
pub mod encode;
pub mod decode;
pub mod laws;
pub mod storage;
