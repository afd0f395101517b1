//! The per-contract layer: a proof that a set of bundle references is
//! committed under one contract-level root.

use vstd::prelude::*;
use crate::digest::{Digest, hash_eq, hash_tagged, is_strictly_ascending, strictly_ascending, tagged_digest};
use crate::merkle::{fold_path, path_fits, path_root};

verus! {

/// A commitment to one bundle of state transitions of a contract.
pub type BundleRef = Digest;

/// The most bundle references that one leaf can commit to: their count is
/// written in two bytes.
pub const MAX_BUNDLES: usize = 65535;

/// The tag that separates bundle-set digests from every other digest.
pub const BUNDLE_TAG: &'static str = "urn:lnp-bp:mmb:bundle#2024-11-18";

/// The bytes of the digests, one after the other.
pub open spec fn concat_digests(digests: Seq<Digest>) -> Seq<u8>
    decreases digests.len(),
{
    if digests.len() == 0 {
        Seq::<u8>::empty()
    } else {
        concat_digests(digests.drop_last()) + digests.last()@
    }
}

/// The byte string that stands for a list of bundle references: their count
/// in two bytes, low byte first, then the references in the order given.
pub open spec fn bundle_set_bytes(refs: Seq<BundleRef>) -> Seq<u8> {
    seq![(refs.len() % 256) as u8, (refs.len() / 256) as u8] + concat_digests(refs)
}

/// Whether a list of bundle references denotes a set that a leaf can hold.
pub open spec fn bundle_set_ok(refs: Seq<BundleRef>) -> bool {
    refs.len() <= MAX_BUNDLES && strictly_ascending(refs)
}

/// The leaf digest that commits to a set of bundle references.
pub open spec fn bundle_leaf(refs: Seq<BundleRef>) -> Seq<u8> {
    tagged_digest(BUNDLE_TAG@, bundle_set_bytes(refs))
}

/// Writes a set of bundle references as bytes.
pub(crate) fn encode_bundle_set(refs: &Vec<BundleRef>) -> (bytes: Vec<u8>)
    requires
        refs@.len() <= MAX_BUNDLES,
    ensures
        bytes@ == bundle_set_bytes(refs@),
{
    let count = refs.len();
    let mut bytes: Vec<u8> = Vec::new();
    bytes.push((count % 256) as u8);
    bytes.push((count / 256) as u8);
    let ghost head = bytes@;
    let mut i: usize = 0;
    while i < count
        invariant
            count == refs@.len(),
            i <= count,
            bytes@ == head + concat_digests(refs@.take(i as int)),
        decreases count - i,
    {
        let item = &refs[i];
        let ghost before = bytes@;
        let mut k: usize = 0;
        while k < 32
            invariant
                k <= 32,
                bytes@ == before + item@.take(k as int),
            decreases 32 - k,
        {
            bytes.push(item[k]);
            assert(item@.take(k + 1) =~= item@.take(k as int).push(item@[k as int]));
            k += 1;
        }
        proof {
            assert(item@.take(32) =~= item@);
            let next = refs@.take(i + 1);
            assert(next.drop_last() =~= refs@.take(i as int));
            assert(next.last() == refs@[i as int]);
            assert(bytes@ =~= head + concat_digests(next));
        }
        i += 1;
    }
    assert(refs@.take(count as int) =~= refs@);
    bytes
}

/// An inclusion proof for the leaf that holds a contract's bundle set: the
/// leaf's position in the contract's tree and the siblings on the way to the
/// root, the one nearest the root first.
#[derive(Clone, Debug)]
pub struct BundleProof {
    pub position: u32,
    pub siblings: Vec<Digest>,
}

/// What a bundle proof says: the position and the siblings as values.
pub struct BundleProofView {
    pub position: u32,
    pub siblings: Seq<Digest>,
}

impl View for BundleProof {
    type V = BundleProofView;

    open spec fn view(&self) -> BundleProofView {
        BundleProofView { position: self.position, siblings: self.siblings@ }
    }
}

impl BundleProofView {
    /// Whether the proof describes a path in a tree: no longer than the
    /// deepest tree, with a position inside the tree's width.
    pub open spec fn well_formed(self) -> bool {
        path_fits(self.position as nat, self.siblings)
    }

    /// The contract-level root that the proof yields for a set of bundle
    /// references; `None` where the proof or the set is malformed.
    pub open spec fn commitment(self, refs: Seq<BundleRef>) -> Option<Seq<u8>> {
        if self.well_formed() && bundle_set_ok(refs) {
            Some(path_root(bundle_leaf(refs), self.position as nat, self.siblings))
        } else {
            None
        }
    }
}

impl BundleProof {
    /// Checks the structure of the proof without hashing anything.
    pub fn is_well_formed(&self) -> (ok: bool)
        ensures
            ok == self@.well_formed(),
    {
        match crate::merkle::tree_width(self.siblings.len()) {
            Some(width) => self.position < width,
            None => false,
        }
    }

    /// Recomputes the contract-level root from the bundle references.
    pub fn commitment(&self, refs: &Vec<BundleRef>) -> (root: Option<Digest>)
        ensures
            match (root, self@.commitment(refs@)) {
                (Some(r), Some(s)) => r@ == s,
                (None, None) => true,
                _ => false,
            },
    {
        if refs.len() > MAX_BUNDLES || !is_strictly_ascending(refs) {
            return None;
        }
        let bytes = encode_bundle_set(refs);
        let leaf = hash_tagged(BUNDLE_TAG, &bytes);
        fold_path(&leaf, self.position, &self.siblings)
    }

    /// Whether the bundle references recompute to `expected_root`, bit for
    /// bit. A malformed proof or set verifies against no root.
    pub fn verify(&self, refs: &Vec<BundleRef>, expected_root: &Digest) -> (ok: bool)
        ensures
            ok == (self@.commitment(refs@) == Some(expected_root@)),
    {
        match self.commitment(refs) {
            Some(root) => hash_eq(&root, expected_root),
            None => false,
        }
    }
}

} // verus!
