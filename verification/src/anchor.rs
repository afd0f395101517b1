//! The anchor of one transaction: the multi-protocol block, the proof that
//! binds its root to the transaction, and the sub-anchor of each contract.

use vstd::prelude::*;
use crate::contracts::{ContractMap, SubAnchor, SubAnchorView, MAX_CONTRACTS, covers_count, full, no_contracts};
use crate::listing::is_listing;
use crate::dbc::{DbcProof, DbcProofView, Tx};
use crate::digest::{Digest, hash_eq, is_strictly_ascending};
use crate::error::AnchorError;
use crate::mmb::{BundleRef, MAX_BUNDLES, bundle_set_ok};
use crate::mpc::{ContractId, MerkleBlock, MerkleBlockView, convolve};

verus! {

/// What a successful verification establishes: the bundles of the contract
/// are committed, through `commitment` and `root`, by the transaction.
#[derive(Clone, Copy, Debug)]
pub struct VerifiedClaim {
    pub contract_id: ContractId,
    pub commitment: Digest,
    pub root: Digest,
}

/// The anchor of all contracts that one transaction commits to.
#[derive(Debug)]
pub struct SuperAnchor {
    pub mpc_proof: MerkleBlock,
    pub dbc_proof: DbcProof,
    pub contracts: ContractMap,
}

/// An anchor as values.
pub struct SuperAnchorView {
    pub mpc_proof: MerkleBlockView,
    pub dbc_proof: DbcProofView,
    pub contracts: Map<Seq<u8>, SubAnchorView>,
}

impl View for SuperAnchor {
    type V = SuperAnchorView;

    open spec fn view(&self) -> SuperAnchorView {
        SuperAnchorView { mpc_proof: self.mpc_proof@, dbc_proof: self.dbc_proof@, contracts: self.contracts@ }
    }
}

impl SuperAnchorView {
    /// Whether the anchor covers the contract.
    pub open spec fn covers(self, contract: Seq<u8>) -> bool {
        self.contracts.dom().contains(contract)
    }

    /// Whether the anchor is structurally sound: the block is well formed,
    /// it reveals a leaf for every contract that the anchor covers, and the
    /// inclusion proof of every contract is well formed.
    pub open spec fn well_formed(self) -> bool {
        &&& self.mpc_proof.well_formed()
        &&& forall|contract: Seq<u8>| #[trigger] self.covers(contract) ==> self.mpc_proof.reveals(contract)
        &&& forall|contract: Seq<u8>| #[trigger]
            self.covers(contract) ==> self.contracts[contract].mmb_proof.well_formed()
    }

    /// Whether everything that verification of the contract reads is
    /// structurally sound: the bundle set, the contract's inclusion proof and
    /// the block. This is checked before any digest is taken.
    pub open spec fn sound_for(self, contract: Seq<u8>, refs: Seq<BundleRef>) -> bool {
        &&& self.contracts[contract].mmb_proof.well_formed()
        &&& bundle_set_ok(refs)
        &&& self.mpc_proof.well_formed()
    }

    /// Whether every scheme that verification of the contract meets is one
    /// that the verifier implements.
    pub open spec fn schemes_supported(self, contract: Seq<u8>) -> bool {
        self.contracts[contract].fallback_proof.is_none() && self.dbc_proof.supported()
    }

    /// The first layer: the bundle references recompute, through the
    /// contract's sub-anchor, to the message that the block holds for the
    /// contract.
    pub open spec fn bundles_match(self, contract: Seq<u8>, refs: Seq<BundleRef>) -> bool {
        &&& self.mpc_proof.reveals(contract)
        &&& self.contracts[contract].commitment(refs) matches Ok(leaf)
        &&& leaf == self.mpc_proof.message_of(contract)
    }

    /// The second layer: the contract's message and co-path convolve to the
    /// block's root.
    pub open spec fn commitment_matches(self, contract: Seq<u8>) -> bool {
        self.mpc_proof.entry_commitment(self.mpc_proof.entry_of(contract)) == Some(self.mpc_proof.root@)
    }

    /// The third layer: the transaction commits to the block's root.
    pub open spec fn transaction_matches(self, outputs: Seq<Seq<u8>>) -> bool {
        self.dbc_proof.commits(self.mpc_proof.root@, outputs)
    }

    /// The failure that verification ends in, `None` where it succeeds. The
    /// checks are made in this order, and the first that fails decides.
    pub open spec fn failure(self, contract: Seq<u8>, refs: Seq<BundleRef>, outputs: Seq<Seq<u8>>) -> Option<
        AnchorError,
    > {
        if !self.covers(contract) {
            Some(AnchorError::UnknownContract)
        } else if !self.sound_for(contract, refs) {
            Some(AnchorError::MalformedProof)
        } else if !self.schemes_supported(contract) {
            Some(AnchorError::UnsupportedScheme)
        } else if !self.bundles_match(contract, refs) {
            Some(AnchorError::BundleMismatch)
        } else if !self.commitment_matches(contract) {
            Some(AnchorError::CommitmentMismatch)
        } else if !self.transaction_matches(outputs) {
            Some(AnchorError::TransactionMismatch)
        } else {
            None
        }
    }

    /// What the claim of a successful verification says: the contract, the
    /// leaf that its bundles recompute to, and the anchor's root.
    pub open spec fn claims(self, claim: VerifiedClaim, contract: Seq<u8>, refs: Seq<BundleRef>) -> bool {
        &&& claim.contract_id@ == contract
        &&& self.contracts[contract].commitment(refs) matches Ok(leaf)
        &&& leaf == claim.commitment@
        &&& claim.root == self.mpc_proof.root
    }
}

impl SuperAnchor {
    /// An anchor that covers no contract yet.
    pub fn new(mpc_proof: MerkleBlock, dbc_proof: DbcProof) -> (anchor: SuperAnchor)
        ensures
            anchor.mpc_proof == mpc_proof,
            anchor.dbc_proof == dbc_proof,
            anchor@.contracts == no_contracts(),
    {
        SuperAnchor { mpc_proof, dbc_proof, contracts: ContractMap::new() }
    }

    /// Checks the structure of the anchor without hashing anything.
    pub fn is_well_formed(&self) -> (ok: bool)
        ensures
            ok == self@.well_formed(),
    {
        if !self.mpc_proof.is_well_formed() {
            return false;
        }
        let keys = self.contracts.keys();
        let ghost view = self@;
        let mut i: usize = 0;
        while i < keys.len()
            invariant
                view == self@,
                i <= keys@.len(),
                is_listing(keys@, view.contracts.dom()),
                forall|k: int| 0 <= k < i ==> view.mpc_proof.reveals(#[trigger] keys@[k]@),
                forall|k: int| 0 <= k < i ==> view.contracts[#[trigger] keys@[k]@].mmb_proof.well_formed(),
            decreases keys@.len() - i,
        {
            let contract = ContractId(keys[i]);
            assert(view.covers(keys@[i as int]@));
            if self.mpc_proof.find(&contract).is_none() {
                return false;
            }
            match self.contracts.get(&contract) {
                Some(sub) => {
                    if !sub.mmb_proof.is_well_formed() {
                        return false;
                    }
                },
                None => {
                    return false;
                },
            }
            i += 1;
        }
        proof {
            assert forall|contract: Seq<u8>| #[trigger] view.covers(contract) implies view.mpc_proof.reveals(
                contract,
            ) && view.contracts[contract].mmb_proof.well_formed() by {
                let k = choose|k: int| 0 <= k < keys@.len() && #[trigger] keys@[k]@ == contract;
                assert(view.mpc_proof.reveals(keys@[k]@));
            }
        }
        true
    }

    /// The root that the anchor binds to the transaction. It is defined
    /// whatever the anchor covers, also where it covers nothing.
    pub fn root(&self) -> (root: Digest)
        ensures
            root == self@.mpc_proof.root,
    {
        self.mpc_proof.root
    }

    /// The number of contracts that the anchor covers.
    pub fn len(&self) -> (len: usize)
        ensures
            covers_count(self@.contracts, len as nat),
            len <= MAX_CONTRACTS,
    {
        self.contracts.len()
    }

    /// The sub-anchor of a contract.
    pub fn get(&self, contract_id: &ContractId) -> (found: Option<&SubAnchor>)
        ensures
            match found {
                Some(anchor) => self@.covers(contract_id@) && anchor@ == self@.contracts[contract_id@],
                None => !self@.covers(contract_id@),
            },
    {
        self.contracts.get(contract_id)
    }

    /// Adds the sub-anchor of a contract, in place of an earlier one if
    /// there is one. The block must reveal a leaf for the contract, and the
    /// anchor must hold fewer than `MAX_CONTRACTS` contracts: otherwise the
    /// anchor stays as it is and `MalformedProof` is returned.
    pub fn insert(&mut self, contract_id: ContractId, anchor: SubAnchor) -> (outcome: Result<(), AnchorError>)
        ensures
            final(self).mpc_proof == old(self).mpc_proof,
            final(self).dbc_proof == old(self).dbc_proof,
            outcome.is_ok() == (old(self)@.mpc_proof.reveals(contract_id@) && old(self)@.contracts.dom().len()
                < MAX_CONTRACTS),
            outcome.is_ok() ==> final(self)@.contracts == old(self)@.contracts.insert(contract_id@, anchor@),
            outcome.is_err() ==> outcome == full() && final(self)@.contracts == old(self)@.contracts,
    {
        if self.mpc_proof.find(&contract_id).is_none() {
            return Err(AnchorError::MalformedProof);
        }
        self.contracts.insert(contract_id, anchor)
    }

    /// Whether the transaction commits to the anchor's root, for an anchor
    /// taken as a whole, whatever it covers.
    pub fn verify_transaction(&self, transaction: &Tx) -> (outcome: Result<(), AnchorError>)
        ensures
            outcome == self@.dbc_proof.check(self@.mpc_proof.root@, transaction@),
    {
        self.dbc_proof.check(&self.mpc_proof.root, transaction)
    }

    /// Verifies that the bundles of a contract are anchored in the
    /// transaction. All layers must hold: the sub-anchor binds the bundles to
    /// the contract's leaf, the block binds the leaf to the root, and the
    /// transaction commits to the root. The first failure, in the order of
    /// `failure`, is returned; there is no partial success.
    pub fn verify(&self, contract_id: &ContractId, bundle_refs: &Vec<BundleRef>, transaction: &Tx) -> (outcome:
        Result<VerifiedClaim, AnchorError>)
        ensures
            match outcome {
                Ok(claim) => self@.failure(contract_id@, bundle_refs@, transaction@).is_none() && self@.claims(
                    claim,
                    contract_id@,
                    bundle_refs@,
                ),
                Err(e) => self@.failure(contract_id@, bundle_refs@, transaction@) == Some(e),
            },
    {
        let sub = match self.contracts.get(contract_id) {
            Some(sub) => sub,
            None => {
                return Err(AnchorError::UnknownContract);
            },
        };
        if !sub.mmb_proof.is_well_formed() || bundle_refs.len() > MAX_BUNDLES || !is_strictly_ascending(
            bundle_refs,
        ) || !self.mpc_proof.is_well_formed() {
            return Err(AnchorError::MalformedProof);
        }
        if sub.fallback_proof.is_some() || !self.dbc_proof.is_supported() {
            return Err(AnchorError::UnsupportedScheme);
        }
        let leaf = match sub.commitment(bundle_refs) {
            Ok(leaf) => leaf,
            Err(e) => {
                return Err(e);
            },
        };
        let index = match self.mpc_proof.find(contract_id) {
            Some(i) => i,
            None => {
                return Err(AnchorError::BundleMismatch);
            },
        };
        let entry = &self.mpc_proof.entries[index];
        assert(self@.mpc_proof.entries[index as int] == entry@);
        if !hash_eq(&leaf, &entry.message) {
            return Err(AnchorError::BundleMismatch);
        }
        let matches_root = match convolve(&entry.contract, &entry.message, self.mpc_proof.cofactor, &entry.path) {
            Some(commitment) => hash_eq(&commitment, &self.mpc_proof.root),
            None => false,
        };
        if !matches_root {
            return Err(AnchorError::CommitmentMismatch);
        }
        match self.dbc_proof.check(&self.mpc_proof.root, transaction) {
            Ok(()) => Ok(VerifiedClaim { contract_id: *contract_id, commitment: leaf, root: self.mpc_proof.root }),
            Err(e) => Err(e),
        }
    }
}

} // verus!
