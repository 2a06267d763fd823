//! Content-addressed storage for encrypted blocks.
//!
//! A [`BlockStore`] is a pure key-to-ciphertext map: it knows nothing of
//! encryption, node structure or versioning. `get` on an absent key is a
//! valid outcome, never an error, and `insert` persists a block for the
//! lifetime of the store.

use vstd::prelude::*;

use crate::bytes::{
    be_u16, be_u32, lemma_u16_be_round_trip, lemma_u32_be_round_trip, push_u16_be, push_u32_be,
    read_u16_be, read_u32_be, u16_be, u32_be,
};

verus! {

/// A [`BlockStore`] key: the address of one stored ciphertext block.
///
/// On the wire it is exactly 11 bytes (see [`BlockStoreKey::to_bytes`]).
/// Equality is exact equality of the four fields, which is the same as
/// exact equality of the 11 wire bytes. A `write_space` is a logical
/// mutable location scoped to one `user_id`; `version_id` increments per
/// write to that write space, and uniqueness of `version_id`s per write
/// space is the caller's (sequencer's) responsibility.
#[derive(Clone, Copy, Debug, Hash, PartialEq, Eq, Structural)]
pub struct BlockStoreKey {
    pub key_version: u8,
    pub user_id: u32,
    pub write_space: u16,
    pub version_id: u32,
}

impl BlockStoreKey {
    /// Construct a key from its four fields. Values are taken as given:
    /// there is no invariant beyond the fixed byte widths.
    pub fn new(key_version: u8, user_id: u32, write_space: u16, version_id: u32) -> (r: Self)
        ensures
            r == (BlockStoreKey { key_version, user_id, write_space, version_id }),
    {
        BlockStoreKey { key_version, user_id, write_space, version_id }
    }
}

/// The 11 wire bytes of a key: byte 0 `key_version`, bytes 1-4 `user_id`,
/// bytes 5-6 `write_space`, bytes 7-10 `version_id`, big endian.
pub open spec fn spec_key_bytes(k: BlockStoreKey) -> Seq<u8> {
    seq![k.key_version] + u32_be(k.user_id) + u16_be(k.write_space) + u32_be(k.version_id)
}

/// The key read back from 11 wire bytes of `s` starting at `off`.
pub open spec fn spec_read_key(s: Seq<u8>, off: int) -> BlockStoreKey
    recommends
        0 <= off,
        off + 11 <= s.len(),
{
    BlockStoreKey {
        key_version: s[off],
        user_id: be_u32(s.subrange(off + 1, off + 5)),
        write_space: be_u16(s.subrange(off + 5, off + 7)),
        version_id: be_u32(s.subrange(off + 7, off + 11)),
    }
}

/// Reading inverts writing for the key wire format, at any offset.
pub proof fn lemma_key_bytes_round_trip(k: BlockStoreKey, s: Seq<u8>, off: int)
    requires
        0 <= off,
        off + 11 <= s.len(),
        s.subrange(off, off + 11) == spec_key_bytes(k),
    ensures
        spec_read_key(s, off) == k,
{
    let kb = spec_key_bytes(k);
    assert(kb.subrange(1, 5) =~= u32_be(k.user_id));
    assert(kb.subrange(5, 7) =~= u16_be(k.write_space));
    assert(kb.subrange(7, 11) =~= u32_be(k.version_id));
    assert(s.subrange(off + 1, off + 5) =~= kb.subrange(1, 5));
    assert(s.subrange(off + 5, off + 7) =~= kb.subrange(5, 7));
    assert(s.subrange(off + 7, off + 11) =~= kb.subrange(7, 11));
    assert(s[off] == kb[0]);
    lemma_u32_be_round_trip(k.user_id);
    lemma_u16_be_round_trip(k.write_space);
    lemma_u32_be_round_trip(k.version_id);
}

/// Append the 11 wire bytes of `k`.
pub fn push_key(out: &mut Vec<u8>, k: &BlockStoreKey)
    ensures
        final(out)@ == old(out)@ + spec_key_bytes(*k),
{
    out.push(k.key_version);
    push_u32_be(out, k.user_id);
    push_u16_be(out, k.write_space);
    push_u32_be(out, k.version_id);
    proof {
        assert(out@ =~= old(out)@ + spec_key_bytes(*k));
    }
}

/// Read a key from its 11 wire bytes at `off`.
pub fn read_key_at(buf: &Vec<u8>, off: usize) -> (r: BlockStoreKey)
    requires
        off + 11 <= buf@.len(),
    ensures
        r == spec_read_key(buf@, off as int),
{
    let n: usize = buf.len();
    BlockStoreKey {
        key_version: buf[off],
        user_id: read_u32_be(buf, off + 1),
        write_space: read_u16_be(buf, off + 5),
        version_id: read_u32_be(buf, off + 7),
    }
}

impl BlockStoreKey {
    /// The 11-byte wire form of this key.
    pub fn to_bytes(&self) -> (r: Vec<u8>)
        ensures
            r@ == spec_key_bytes(*self),
            r@.len() == 11,
    {
        let mut out: Vec<u8> = Vec::new();
        push_key(&mut out, self);
        out
    }
}

/// An abstraction over any storage backend for encrypted blocks: a mapping
/// from [`BlockStoreKey`] to an opaque byte sequence.
///
/// Implementations (in-memory, disk-backed, networked) are unconstrained
/// beyond this contract; the core only requires that a `get` observes an
/// `insert` that happened before it.
pub trait BlockStore: Sized {
    /// The mathematical content of the store: the map each contract
    /// speaks of.
    spec fn contents(&self) -> Map<BlockStoreKey, Seq<u8>>;

    /// Returns the stored bytes for `key`, or `None` if the key was never
    /// inserted. Absent keys are a valid outcome, never an error.
    fn get(&self, key: &BlockStoreKey) -> (r: Option<&Vec<u8>>)
        ensures
            match r {
                Some(block) => self.contents().contains_key(*key)
                    && block@ == self.contents()[*key],
                None => !self.contents().contains_key(*key),
            },
    ;

    /// Stores `block` under `key`, overwriting prior content if the same
    /// key is reused. The protocol's own discipline never reuses a key;
    /// the store itself is permissive.
    fn insert(&mut self, key: BlockStoreKey, block: Vec<u8>)
        ensures
            final(self).contents() == old(self).contents().insert(key, block@),
    ;
}

/// The mathematical content of a journal of insertions: later entries win.
pub open spec fn journal_map(s: Seq<(BlockStoreKey, Vec<u8>)>) -> Map<BlockStoreKey, Seq<u8>>
    decreases s.len(),
{
    if s.len() == 0 {
        Map::empty()
    } else {
        journal_map(s.drop_last()).insert(s.last().0, s.last().1@)
    }
}

/// The lookup that `journal_map` induces at one key, as an optional value.
pub open spec fn journal_lookup(s: Seq<(BlockStoreKey, Vec<u8>)>, key: BlockStoreKey) -> Option<Seq<u8>> {
    if journal_map(s).contains_key(key) {
        Some(journal_map(s)[key])
    } else {
        None
    }
}

/// The in-memory reference implementation of [`BlockStore`]: a journal of
/// insertions, read back newest first.
#[derive(Debug)]
pub struct InMemoryBlockStore {
    entries: Vec<(BlockStoreKey, Vec<u8>)>,
}

impl InMemoryBlockStore {
    /// An empty store.
    pub fn new() -> (r: Self)
        ensures
            r.contents() == Map::<BlockStoreKey, Seq<u8>>::empty(),
    {
        InMemoryBlockStore { entries: Vec::new() }
    }
}

impl BlockStore for InMemoryBlockStore {
    closed spec fn contents(&self) -> Map<BlockStoreKey, Seq<u8>> {
        journal_map(self.entries@)
    }

    fn get(&self, key: &BlockStoreKey) -> (r: Option<&Vec<u8>>) {
        let mut i: usize = self.entries.len();
        proof {
            assert(self.entries@.take(i as int) =~= self.entries@);
        }
        while i > 0
            invariant
                i <= self.entries@.len(),
                journal_lookup(self.entries@, *key)
                    == journal_lookup(self.entries@.take(i as int), *key),
            decreases i,
        {
            proof {
                assert(self.entries@.take(i as int).drop_last()
                    =~= self.entries@.take(i as int - 1));
                assert(self.entries@.take(i as int).last() == self.entries@[i as int - 1]);
            }
            if self.entries[i - 1].0 == *key {
                return Some(&self.entries[i - 1].1);
            }
            i = i - 1;
        }
        proof {
            assert(self.entries@.take(0) =~= Seq::<(BlockStoreKey, Vec<u8>)>::empty());
        }
        None
    }

    fn insert(&mut self, key: BlockStoreKey, block: Vec<u8>) {
        let ghost b = block@;
        self.entries.push((key, block));
        proof {
            assert(self.entries@.drop_last() =~= old(self).entries@);
            assert(journal_map(self.entries@)
                =~= journal_map(old(self).entries@).insert(key, b));
        }
    }
}

/// Law: inserting a block and then getting the same key returns exactly
/// that block, whatever the store held before.
pub proof fn lemma_insert_then_get(
    contents: Map<BlockStoreKey, Seq<u8>>,
    key: BlockStoreKey,
    block: Seq<u8>,
)
    ensures
        contents.insert(key, block).contains_key(key),
        contents.insert(key, block)[key] == block,
{
}

/// Law: a key never inserted is absent: the contents of a store built
/// only from inserts of other keys never contain it.
pub proof fn lemma_never_inserted_is_absent(
    contents: Map<BlockStoreKey, Seq<u8>>,
    key: BlockStoreKey,
    other: BlockStoreKey,
    block: Seq<u8>,
)
    requires
        !contents.contains_key(key),
        other != key,
    ensures
        !contents.insert(other, block).contains_key(key),
{
}

} // verus!
