//! Canonical bytes. IDs are raw bytes, integers big-endian, variable fields
//! u32-length-prefixed. Every decoder accepts exactly the bytes its encoder
//! produces and nothing else.

pub mod frames;
pub mod control;
pub mod identity;
pub mod locate;
pub mod admission;
pub mod replica;
pub mod replica_laws;
pub mod keys;
pub mod mailbox;
pub mod digests;
pub mod directory;
