//! Cryptree nodes and their version lineage.
//!
//! A cryptree node controls read and write access to a directory or
//! file. A directory holds the distinct symmetric read keys base and
//! parent; a file holds base (serving both the base and parent roles)
//! and data. Either kind also has a single symmetric write key. A link
//! node behaves like a directory with a single child and carries only a
//! filename; see `chunk::seal_link_node`.
//!
//! Editing never mutates stored bytes: a later edit creates a new node
//! whose `previous_version` points at the old one, so versions form a
//! backward-linked immutable history. The history of one node is modeled
//! as an arena of versions indexed by block key, each version's record
//! holding the key of its predecessor, or none at the creation point.

use vstd::prelude::*;

use crate::blockstore::{BlockStore, BlockStoreKey};
use crate::errors::CryptreeError;
use vstd::set_lib::lemma_len_subset;

verus! {

/// One directory, file or link node at a point in its version history,
/// generic over the pointer type `P` that names its prior version.
#[derive(Debug)]
pub struct CryptreeNode<P> {
    previous_version: Option<P>,
    is_directory: bool,
}

impl<P> CryptreeNode<P> {
    /// Whether this node is a directory (a file otherwise).
    pub closed spec fn spec_is_directory(&self) -> bool {
        self.is_directory
    }

    /// The pointer to this node's prior version; absent for the first
    /// version of a node, such as the root of a home directory.
    pub closed spec fn spec_previous_version(&self) -> Option<P> {
        self.previous_version
    }
}

impl<P: Clone> CryptreeNode<P> {
    /// Build a node bound to its kind and its predecessor pointer.
    pub fn new(is_directory: bool, previous_version: Option<P>) -> (r: Self)
        ensures
            r.spec_is_directory() == is_directory,
            r.spec_previous_version() == previous_version,
    {
        Self { is_directory, previous_version }
    }

    /// Create an in-memory write space: a root directory with no
    /// predecessor.
    pub fn new_in_memory_space() -> (r: Self)
        ensures
            r.spec_is_directory(),
            r.spec_previous_version() is None,
    {
        Self { previous_version: None, is_directory: true }
    }

    /// Whether this node is a directory.
    pub fn is_directory(&self) -> (r: bool)
        ensures
            r == self.spec_is_directory(),
    {
        self.is_directory
    }

    /// The pointer to this node's prior version, if any.
    pub fn previous_version(&self) -> (r: Option<&P>)
        ensures
            match r {
                Some(p) => self.spec_previous_version() == Some(*p),
                None => self.spec_previous_version() is None,
            },
    {
        match &self.previous_version {
            Some(p) => Some(p),
            None => None,
        }
    }
}

/// The mathematical content of a journal of version records: later
/// records win.
pub open spec fn arena_map(s: Seq<(BlockStoreKey, Option<BlockStoreKey>)>) -> Map<
    BlockStoreKey,
    Option<BlockStoreKey>,
>
    decreases s.len(),
{
    if s.len() == 0 {
        Map::empty()
    } else {
        arena_map(s.drop_last()).insert(s.last().0, s.last().1)
    }
}

/// The lookup that `arena_map` induces at one key.
pub open spec fn arena_lookup(
    s: Seq<(BlockStoreKey, Option<BlockStoreKey>)>,
    key: BlockStoreKey,
) -> Option<Option<BlockStoreKey>> {
    if arena_map(s).contains_key(key) {
        Some(arena_map(s)[key])
    } else {
        None
    }
}

/// The arena never holds more distinct versions than records.
proof fn lemma_arena_dom(s: Seq<(BlockStoreKey, Option<BlockStoreKey>)>)
    ensures
        arena_map(s).dom().finite(),
        arena_map(s).dom().len() <= s.len(),
    decreases s.len(),
{
    if s.len() == 0 {
        assert(arena_map(s).dom() =~= Set::<BlockStoreKey>::empty());
    } else {
        lemma_arena_dom(s.drop_last());
        assert(arena_map(s).dom() =~= arena_map(s.drop_last()).dom().insert(s.last().0));
    }
}

/// An arena of node versions: for each version key ever recorded, the
/// key of its predecessor, or none at the version the node was created
/// with.
#[derive(Debug)]
pub struct VersionArena {
    entries: Vec<(BlockStoreKey, Option<BlockStoreKey>)>,
}

impl VersionArena {
    /// The mathematical content: the predecessor pointer of each
    /// recorded version.
    pub closed spec fn links(&self) -> Map<BlockStoreKey, Option<BlockStoreKey>> {
        arena_map(self.entries@)
    }

    /// How many records the arena holds.
    pub closed spec fn spec_size(&self) -> nat {
        self.entries@.len()
    }

    /// An empty arena.
    pub fn new() -> (r: Self)
        ensures
            r.links() == Map::<BlockStoreKey, Option<BlockStoreKey>>::empty(),
            r.spec_size() == 0,
    {
        VersionArena { entries: Vec::new() }
    }

    /// Record that version `key` has predecessor `previous` (or none at
    /// the node's creation point).
    pub fn record(&mut self, key: BlockStoreKey, previous: Option<BlockStoreKey>)
        ensures
            final(self).links() == old(self).links().insert(key, previous),
            final(self).spec_size() == old(self).spec_size() + 1,
    {
        self.entries.push((key, previous));
        proof {
            assert(self.entries@.drop_last() =~= old(self).entries@);
            assert(arena_map(self.entries@) =~= arena_map(old(self).entries@).insert(
                key,
                previous,
            ));
        }
    }

    /// The predecessor record of `key`: `None` where `key` was never
    /// recorded, `Some(previous)` where it was.
    #[verifier::loop_isolation(false)]
    pub fn lookup(&self, key: &BlockStoreKey) -> (r: Option<Option<BlockStoreKey>>)
        ensures
            match r {
                Some(p) => self.links().contains_key(*key) && self.links()[*key] == p,
                None => !self.links().contains_key(*key),
            },
    {
        let mut i: usize = self.entries.len();
        proof {
            assert(self.entries@.take(i as int) =~= self.entries@);
        }
        while i > 0
            invariant
                i <= self.entries@.len(),
                arena_lookup(self.entries@, *key) == arena_lookup(
                    self.entries@.take(i as int),
                    *key,
                ),
            decreases i,
        {
            proof {
                assert(self.entries@.take(i as int).drop_last() =~= self.entries@.take(
                    i as int - 1,
                ));
                assert(self.entries@.take(i as int).last() == self.entries@[i as int - 1]);
            }
            if self.entries[i - 1].0 == *key {
                return Some(self.entries[i - 1].1);
            }
            i = i - 1;
        }
        proof {
            assert(self.entries@.take(0) =~= Seq::<(BlockStoreKey, Option<BlockStoreKey>)>::empty());
        }
        None
    }
}

/// Author a new version of a node: insert the sealed block under its
/// fresh key and chain the new version to the old head. Stored bytes
/// are never mutated in place; only new blocks are appended, linked by
/// the predecessor pointer (absent for the first version of a node).
pub fn publish_version<S: BlockStore>(
    store: &mut S,
    arena: &mut VersionArena,
    key: BlockStoreKey,
    block: Vec<u8>,
    previous: Option<BlockStoreKey>,
)
    ensures
        final(store).contents() == old(store).contents().insert(key, block@),
        final(arena).links() == old(arena).links().insert(key, previous),
{
    store.insert(key, block);
    arena.record(key, previous);
}

/// A complete version history of `start` under `links`: it starts at
/// `start`, each step follows the recorded predecessor pointer, it ends
/// at a version with no predecessor, and it never revisits a version.
pub open spec fn valid_chain(
    links: Map<BlockStoreKey, Option<BlockStoreKey>>,
    start: BlockStoreKey,
    p: Seq<BlockStoreKey>,
) -> bool {
    &&& p.len() >= 1
    &&& p[0] == start
    &&& (forall|i: int| 0 <= i < p.len() ==> links.contains_key(#[trigger] p[i]))
    &&& (forall|i: int| 0 <= i < p.len() - 1 ==> links[#[trigger] p[i]] == Some(p[i + 1]))
    &&& links[p.last()] == None::<BlockStoreKey>
    &&& p.no_duplicates()
}

/// Two valid chains from the same start agree at every index they share.
proof fn lemma_chain_agree(
    links: Map<BlockStoreKey, Option<BlockStoreKey>>,
    start: BlockStoreKey,
    p1: Seq<BlockStoreKey>,
    p2: Seq<BlockStoreKey>,
    i: int,
)
    requires
        valid_chain(links, start, p1),
        valid_chain(links, start, p2),
        0 <= i < p1.len(),
        i < p2.len(),
    ensures
        p1[i] == p2[i],
    decreases i,
{
    if i > 0 {
        lemma_chain_agree(links, start, p1, p2, i - 1);
        assert(links[p1[i - 1]] == Some(p1[i]));
        assert(links[p2[i - 1]] == Some(p2[i]));
    }
}

/// Law: the version history of a node is unique. Following
/// `previous_version` pointers is deterministic, so any two complete
/// histories from the same version are the same history.
pub proof fn lemma_chain_unique(
    links: Map<BlockStoreKey, Option<BlockStoreKey>>,
    start: BlockStoreKey,
    p1: Seq<BlockStoreKey>,
    p2: Seq<BlockStoreKey>,
)
    requires
        valid_chain(links, start, p1),
        valid_chain(links, start, p2),
    ensures
        p1 == p2,
{
    if p1.len() < p2.len() {
        assert forall|i: int| 0 <= i < p1.len() implies p1[i] == p2[i] by {
            lemma_chain_agree(links, start, p1, p2, i);
        }
        assert(p2[p1.len() - 1] == p1.last());
        assert(links[p2[p1.len() - 1]] == Some(p2[p1.len() as int]));
        assert(false);
    } else if p2.len() < p1.len() {
        assert forall|i: int| 0 <= i < p2.len() implies p1[i] == p2[i] by {
            lemma_chain_agree(links, start, p1, p2, i);
        }
        assert(p1[p2.len() - 1] == p2.last());
        assert(links[p1[p2.len() - 1]] == Some(p1[p2.len() as int]));
        assert(false);
    } else {
        assert forall|i: int| 0 <= i < p1.len() implies p1[i] == p2[i] by {
            lemma_chain_agree(links, start, p1, p2, i);
        }
        assert(p1 =~= p2);
    }
}

/// Whether `path` already holds `key`.
#[verifier::loop_isolation(false)]
fn path_contains(path: &Vec<BlockStoreKey>, key: &BlockStoreKey) -> (r: bool)
    ensures
        r == path@.contains(*key),
{
    let mut i: usize = 0;
    while i < path.len()
        invariant
            i <= path@.len(),
            forall|j: int| 0 <= j < i ==> path@[j] != *key,
        decreases path@.len() - i,
    {
        if path[i] == *key {
            return true;
        }
        i = i + 1;
    }
    false
}

/// Follow `previous_version` pointers from `start` to the version the
/// node was created with.
///
/// Returns the complete history, newest first. A chain that revisits a
/// version or points at a version the arena does not hold signals a
/// corrupted history: `IntegrityError`, and in that case no complete
/// history of `start` exists in the arena at all.
#[verifier::loop_isolation(false)]
pub fn trace_chain(arena: &VersionArena, start: BlockStoreKey) -> (r: Result<
    Vec<BlockStoreKey>,
    CryptreeError,
>)
    ensures
        match r {
            Ok(p) => valid_chain(arena.links(), start, p@),
            Err(e) => e == CryptreeError::IntegrityError && forall|p: Seq<BlockStoreKey>|
                !valid_chain(arena.links(), start, p),
        },
{
    let links = Ghost(arena.links());
    let mut path: Vec<BlockStoreKey> = Vec::new();
    let mut cur: BlockStoreKey = start;
    proof {
        assert forall|p: Seq<BlockStoreKey>| valid_chain(links@, start, p) implies p.len() > 0
            && p.take(0) =~= path@ && p[0] == cur by {
            assert(p.take(0) =~= path@);
        }
    }
    loop
        invariant
            path@.no_duplicates(),
            forall|i: int| 0 <= i < path@.len() ==> links@.contains_key(#[trigger] path@[i]),
            forall|i: int|
                0 <= i < path@.len() - 1 ==> links@[#[trigger] path@[i]] == Some(path@[i + 1]),
            path@.len() == 0 ==> cur == start,
            path@.len() > 0 ==> path@[0] == start && links@[path@.last()] == Some(cur),
            forall|p: Seq<BlockStoreKey>|
                valid_chain(links@, start, p) ==> p.len() > path@.len() && p.take(
                    path@.len() as int,
                ) == path@ && p[path@.len() as int] == cur,
            path@.len() <= arena.spec_size(),
        decreases arena.spec_size() - path@.len(),
    {
        if path_contains(&path, &cur) {
            proof {
                let j = choose|j: int| 0 <= j < path@.len() && path@[j] == cur;
                assert forall|p: Seq<BlockStoreKey>| !valid_chain(links@, start, p) by {
                    if valid_chain(links@, start, p) {
                        assert(p[j] == path@[j]);
                        assert(p[path@.len() as int] == cur);
                        assert(!p.no_duplicates());
                    }
                }
            }
            return Err(CryptreeError::IntegrityError);
        }
        match arena.lookup(&cur) {
            None => {
                proof {
                    assert forall|p: Seq<BlockStoreKey>| !valid_chain(links@, start, p) by {
                        if valid_chain(links@, start, p) {
                            assert(links@.contains_key(p[path@.len() as int]));
                        }
                    }
                }
                return Err(CryptreeError::IntegrityError);
            },
            Some(previous) => {
                proof {
                    let s2 = path@.push(cur);
                    assert(s2.no_duplicates()) by {
                        assert(forall|j: int|
                            0 <= j < path@.len() ==> s2[j] == #[trigger] path@[j]);
                        assert(s2[path@.len() as int] == cur);
                    }
                    s2.unique_seq_to_set();
                    assert(s2.to_set().subset_of(links@.dom())) by {
                        assert forall|x: BlockStoreKey| s2.to_set().contains(x) implies links@
                            .dom().contains(x) by {
                            let j = choose|j: int| 0 <= j < s2.len() && s2[j] == x;
                            if j < path@.len() {
                                assert(links@.contains_key(path@[j]));
                            }
                        }
                    }
                    lemma_arena_dom_of(arena);
                    lemma_len_subset(s2.to_set(), links@.dom());
                    assert(s2.len() <= arena.spec_size());
                }
                let ghost old_path = path@;
                path.push(cur);
                match previous {
                    None => {
                        proof {
                            assert(path@ == old_path.push(cur));
                            assert(path@.last() == cur);
                            assert(path@[0] == start);
                            assert(valid_chain(links@, start, path@));
                        }
                        return Ok(path);
                    },
                    Some(prev_key) => {
                        proof {
                            assert forall|p: Seq<BlockStoreKey>|
                                valid_chain(links@, start, p) implies p.len() > path@.len()
                                && p.take(path@.len() as int) == path@ && p[path@.len() as int]
                                == prev_key by {
                                assert(p.len() > old_path.len());
                                assert(p.take(old_path.len() as int) == old_path);
                                assert(p[old_path.len() as int] == cur);
                                if p.len() == old_path.len() + 1 {
                                    assert(p.last() == cur);
                                    assert(links@[cur] == Some(prev_key));
                                    assert(false);
                                }
                                assert(links@[p[old_path.len() as int]] == Some(
                                    p[old_path.len() as int + 1],
                                ));
                                assert(p[path@.len() as int] == prev_key);
                                assert(p.take(path@.len() as int) =~= path@) by {
                                    assert(forall|j: int|
                                        0 <= j < old_path.len() ==> p[j] == #[trigger] old_path[j]);
                                }
                            }
                        }
                        cur = prev_key;
                    },
                }
            },
        }
    }
}

/// The arena's link map never has more versions than records.
proof fn lemma_arena_dom_of(arena: &VersionArena)
    ensures
        arena.links().dom().finite(),
        arena.links().dom().len() <= arena.spec_size(),
{
    lemma_arena_dom(arena.entries@);
}

} // verus!
