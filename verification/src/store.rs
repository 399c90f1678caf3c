//! Durable vault state: the directory tree and the replica snapshot.

pub mod chunks;
pub mod durable;
pub mod replica;
pub mod tree;
pub mod tree_laws;
pub mod vaults;
