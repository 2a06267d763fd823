//! The write-space sequencer: version_id allocation.
//!
//! Choosing the next version_id for a write space is the one place the
//! protocol needs true coordination: two writers claiming the same
//! version_id would make two different ciphertexts collide at the same
//! block key. The core only requires that version_ids it is given are
//! unique per write space; this in-memory sequencer is the reference
//! implementation of that contract. A conflict is the only condition a
//! caller is expected to retry, with a fresh version_id.

use vstd::prelude::*;

use crate::errors::CryptreeError;

verus! {

/// An in-memory write-space sequencer. A claim names the `user_id` and
/// `write_space` the version belongs to (a write space is scoped to one
/// user) and the `version_id` claimed.
#[derive(Debug)]
pub struct Sequencer {
    claimed: Vec<(u32, u16, u32)>,
}

impl Sequencer {
    /// Every (user_id, write_space, version_id) triple granted so far.
    pub closed spec fn claimed_set(&self) -> Set<(u32, u16, u32)> {
        self.claimed@.to_set()
    }

    /// A sequencer that has granted nothing.
    pub fn new() -> (r: Self)
        ensures
            r.claimed_set() == Set::<(u32, u16, u32)>::empty(),
    {
        let r = Sequencer { claimed: Vec::new() };
        proof {
            assert(r.claimed@.to_set() =~= Set::<(u32, u16, u32)>::empty());
        }
        r
    }

    /// Claim `version_id` for (`user_id`, `write_space`). Exactly one
    /// claimant is granted a given triple: a claim of a triple granted
    /// before returns `VersionConflict` and changes nothing, and the
    /// writer retries with a fresh version_id.
    #[verifier::loop_isolation(false)]
    pub fn claim(&mut self, user_id: u32, write_space: u16, version_id: u32) -> (r: Result<
        (),
        CryptreeError,
    >)
        ensures
            match r {
                Ok(_) => !old(self).claimed_set().contains((user_id, write_space, version_id))
                    && final(self).claimed_set() == old(self).claimed_set().insert(
                    (user_id, write_space, version_id),
                ),
                Err(e) => e == CryptreeError::VersionConflict && old(self).claimed_set().contains(
                    (user_id, write_space, version_id),
                ) && *final(self) == *old(self),
            },
    {
        let ghost t = (user_id, write_space, version_id);
        let mut i: usize = 0;
        while i < self.claimed.len()
            invariant
                i <= self.claimed@.len(),
                forall|j: int| 0 <= j < i ==> self.claimed@[j] != t,
            decreases self.claimed@.len() - i,
        {
            let c = self.claimed[i];
            if c.0 == user_id && c.1 == write_space && c.2 == version_id {
                proof {
                    assert(self.claimed@[i as int] == t);
                    assert(self.claimed@.to_set().contains(t));
                }
                return Err(CryptreeError::VersionConflict);
            }
            i = i + 1;
        }
        proof {
            assert(!self.claimed@.contains(t));
            assert(!self.claimed@.to_set().contains(t));
        }
        self.claimed.push((user_id, write_space, version_id));
        proof {
            assert forall|x: (u32, u16, u32)| self.claimed@.to_set().contains(x) implies old(
                self,
            ).claimed@.to_set().insert(t).contains(x) by {
                let j = choose|j: int| 0 <= j < self.claimed@.len() && self.claimed@[j] == x;
                if j < old(self).claimed@.len() {
                    assert(old(self).claimed@[j] == x);
                }
            }
            assert forall|x: (u32, u16, u32)|
                old(self).claimed@.to_set().insert(t).contains(x) implies self.claimed@.to_set()
                .contains(x) by {
                if x == t {
                    assert(self.claimed@.last() == t);
                } else {
                    let j = choose|j: int|
                        0 <= j < old(self).claimed@.len() && old(self).claimed@[j] == x;
                    assert(self.claimed@[j] == x);
                }
            }
            assert(self.claimed@.to_set() =~= old(self).claimed@.to_set().insert(t));
        }
        Ok(())
    }
}

} // verus!
