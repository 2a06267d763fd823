//! Access-control core of an encrypted filesystem: a cryptree.
//!
//! A cryptree is a tree of directory, file and link nodes in which read and
//! write permissions are conveyed purely through possession of symmetric
//! keys. This crate defines the key hierarchy, the exact wire layout of an
//! encrypted node, the content-addressed block store the nodes persist
//! through, and the version-chain discipline that links successive versions
//! of a node.

pub mod blockstore;
pub mod bytes;
pub mod chunk;
pub mod crypto;
pub mod cryptree;
pub mod errors;
pub mod keys;
pub mod sequencer;
