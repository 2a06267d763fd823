//! Failure taxonomy of the cryptree core.

use vstd::prelude::*;

verus! {

/// Every failure the core can signal. An absent block-store key is not an
/// error: `get` reports it as `None` and callers branch on it.
#[derive(Clone, Copy, Debug, PartialEq, Eq, Structural)]
pub enum CryptreeError {
    /// A ciphertext did not authenticate under the supplied key.
    DecryptionFailure,
    /// Decrypted or raw bytes do not match the expected chunk layout.
    MalformedChunk,
    /// A version chain cycles or points at a missing block.
    IntegrityError,
    /// A version_id was already claimed for the same write space.
    VersionConflict,
}

} // verus!
