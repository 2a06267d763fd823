//! The key hierarchy: which symmetric keys a node owns and what each
//! unlocks.
//!
//! Possession of a base key implies read access to everything reachable
//! below it: a directory's base key decrypts the links (and so the base
//! keys) of its children, and a file's base key decrypts its data key.
//! Possession of a write key implies the ability to author a new
//! version chained to the current head, but no read access by itself.

use vstd::prelude::*;

use crate::crypto::SymKey;

verus! {

/// The keys of a directory: two distinct read keys — base, which
/// unlocks the child links, and parent, which unlocks the parent link
/// and metadata — and the single write key.
#[derive(Clone, Copy, Debug)]
pub struct DirectoryKeys {
    base: SymKey,
    parent: SymKey,
    write: SymKey,
}

impl DirectoryKeys {
    /// The read key for the child links (component 2) and the fixed
    /// header (component 1).
    pub closed spec fn spec_base(&self) -> SymKey {
        self.base
    }

    /// The read key for the parent link and metadata (component 3):
    /// parent-traversal and metadata visibility are a capability
    /// separate from child-content visibility.
    pub closed spec fn spec_parent(&self) -> SymKey {
        self.parent
    }

    /// The key that authorizes inserting a new version of this node.
    pub closed spec fn spec_write(&self) -> SymKey {
        self.write
    }

    /// Assemble a directory's keys. Base and parent must be distinct:
    /// handing out the base key grants the subtree below it, never the
    /// parent link or the metadata.
    pub fn new(base: SymKey, parent: SymKey, write: SymKey) -> (r: Self)
        requires
            base != parent,
        ensures
            r.spec_base() == base,
            r.spec_parent() == parent,
            r.spec_write() == write,
            r.spec_base() != r.spec_parent(),
    {
        DirectoryKeys { base, parent, write }
    }

    /// The base key.
    pub fn base(&self) -> (r: SymKey)
        ensures
            r == self.spec_base(),
    {
        self.base
    }

    /// The parent key.
    pub fn parent(&self) -> (r: SymKey)
        ensures
            r == self.spec_parent(),
    {
        self.parent
    }

    /// The write key.
    pub fn write_key(&self) -> (r: SymKey)
        ensures
            r == self.spec_write(),
    {
        self.write
    }
}

/// The keys of a file: the base key, which serves both the base and the
/// parent roles and unlocks the data key, the distinct data key, which
/// unlocks the content chunks, and the single write key.
#[derive(Clone, Copy, Debug)]
pub struct FileKeys {
    base: SymKey,
    data: SymKey,
    write: SymKey,
}

impl FileKeys {
    /// The read key that unlocks the fixed header, and with it the data
    /// key; it also plays the parent role for component 3.
    pub closed spec fn spec_base(&self) -> SymKey {
        self.base
    }

    /// The key for the file's content chunks.
    pub closed spec fn spec_data(&self) -> SymKey {
        self.data
    }

    /// The key that authorizes inserting a new version of this node.
    pub closed spec fn spec_write(&self) -> SymKey {
        self.write
    }

    /// Assemble a file's keys. Base and data must be distinct: the data
    /// key alone grants the content chunks, never the header.
    pub fn new(base: SymKey, data: SymKey, write: SymKey) -> (r: Self)
        requires
            base != data,
        ensures
            r.spec_base() == base,
            r.spec_data() == data,
            r.spec_write() == write,
            r.spec_base() != r.spec_data(),
    {
        FileKeys { base, data, write }
    }

    /// The base key.
    pub fn base(&self) -> (r: SymKey)
        ensures
            r == self.spec_base(),
    {
        self.base
    }

    /// The data key.
    pub fn data(&self) -> (r: SymKey)
        ensures
            r == self.spec_data(),
    {
        self.data
    }

    /// The write key.
    pub fn write_key(&self) -> (r: SymKey)
        ensures
            r == self.spec_write(),
    {
        self.write
    }
}

} // verus!
