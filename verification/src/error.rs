//! The ways in which verification of an anchor fails.

use vstd::prelude::*;

verus! {

/// Why an anchor was rejected. Every failure ends the call that met it.
#[derive(Clone, Copy, Debug, PartialEq, Eq, Structural)]
pub enum AnchorError {
    /// A proof is structurally invalid: a path of the wrong length, a
    /// position outside the tree, a leaf claimed twice, too many entries.
    MalformedProof,
    /// The anchor holds no sub-anchor for the contract.
    UnknownContract,
    /// The bundle references do not recompute to the contract's leaf.
    BundleMismatch,
    /// The contract's leaf does not recompute to the anchor's root.
    CommitmentMismatch,
    /// The transaction does not commit to the anchor's root.
    TransactionMismatch,
    /// A proof names a scheme that this verifier does not implement.
    UnsupportedScheme,
}

} // verus!
