//! Which hash the Merkle trees use.

use vstd::prelude::*;

verus! {

/// The process-wide choices of the hashing layer.
#[derive(Clone, Copy, PartialEq, Eq, Structural, Debug)]
pub struct MerkleSettings {
    pub blake3: bool,
}

impl MerkleSettings {
    /// Blake3 is off until it is switched on.
    pub fn new() -> (r: Self)
        ensures
            !r.blake3,
    {
        MerkleSettings { blake3: false }
    }
}

/// Switches Blake3 Merkle trees on or off.
pub fn set_use_blake3_merkle(settings: &mut MerkleSettings, enabled: bool)
    ensures
        final(settings).blake3 == enabled,
{
    settings.blake3 = enabled;
}

/// Whether Merkle trees use Blake3.
pub fn use_blake3_merkle(settings: &MerkleSettings) -> (r: bool)
    ensures
        r == settings.blake3,
{
    settings.blake3
}

} // verus!
