//! A content-addressed object store with typed, versioned serialization.
//!
//! Values are written under the digest of their canonical bytes. A stored
//! record carries a version word and the hash of its schema, so that a blob
//! written under a retired schema can still be read and lifted.
//!
//! The store itself is a tree of named blobs in memory, with the
//! directories that were created for them; reading it from a directory and
//! writing it back is left to the caller. What `get` and `put` do to that
//! tree is stated exactly, and from that it is proved that what was stored
//! is read back, that storing twice changes nothing, that a blob is never
//! written again, and that the store is closed under reference.

pub mod hash;
pub mod text;
pub mod io;
pub mod hashio;
pub mod value;
pub mod hashio_model;
pub mod fallback;
pub mod btreemap;
pub mod order;
pub mod string;
pub mod vec;
pub mod keytext;
pub mod hashiotype;
pub mod hashiofile;
pub mod load;
pub mod save;
pub mod round_trip;
pub mod closure;
pub mod truncation;
