//! The bounded map from contract identifiers to sub-anchors.

use vstd::prelude::*;
use amplify::confinement::SmallOrdMap;
use crate::error::AnchorError;
use crate::mmb::{BundleProof, BundleProofView, BundleRef};
use crate::mpc::ContractId;
use crate::digest::{Digest, hash_eq};
use crate::listing::{is_listing, lemma_listing_exists, lemma_listing_unique, listing_of};

verus! {

/// The most contracts that one anchor covers.
pub const MAX_CONTRACTS: usize = 65535;

/// A fallback proof of some later scheme. No scheme is defined yet, so a
/// sub-anchor that holds one is not accepted.
#[derive(Clone, Copy, Debug, PartialEq, Eq, Structural)]
pub struct FallbackProof {
    pub scheme: u8,
}

/// The proof object of one contract: the inclusion proof of its bundle set,
/// and the slot kept for a fallback proof.
#[derive(Clone, Debug)]
pub struct SubAnchor {
    pub mmb_proof: BundleProof,
    pub fallback_proof: Option<FallbackProof>,
}

/// A sub-anchor as values.
pub struct SubAnchorView {
    pub mmb_proof: BundleProofView,
    pub fallback_proof: Option<FallbackProof>,
}

impl View for SubAnchor {
    type V = SubAnchorView;

    open spec fn view(&self) -> SubAnchorView {
        SubAnchorView { mmb_proof: self.mmb_proof@, fallback_proof: self.fallback_proof }
    }
}

impl SubAnchorView {
    /// The contract-level root that the sub-anchor yields for a set of bundle
    /// references, or the reason why it yields none: a malformed proof or set
    /// first, a populated fallback slot second.
    pub open spec fn commitment(self, refs: Seq<BundleRef>) -> Result<Seq<u8>, AnchorError> {
        match self.mmb_proof.commitment(refs) {
            None => Err(AnchorError::MalformedProof),
            Some(root) => if self.fallback_proof.is_some() {
                Err(AnchorError::UnsupportedScheme)
            } else {
                Ok(root)
            },
        }
    }
}

impl SubAnchor {
    /// A sub-anchor without a fallback proof.
    pub fn new(mmb_proof: BundleProof) -> (anchor: SubAnchor)
        ensures
            anchor.mmb_proof == mmb_proof,
            anchor.fallback_proof.is_none(),
    {
        SubAnchor { mmb_proof, fallback_proof: None }
    }

    /// Recomputes the contract-level root from the bundle references.
    pub fn commitment(&self, refs: &Vec<BundleRef>) -> (root: Result<Digest, AnchorError>)
        ensures
            match (root, self@.commitment(refs@)) {
                (Ok(r), Ok(s)) => r@ == s,
                (Err(e), Err(f)) => e == f,
                _ => false,
            },
    {
        match self.mmb_proof.commitment(refs) {
            None => Err(AnchorError::MalformedProof),
            Some(root) => {
                if self.fallback_proof.is_some() {
                    Err(AnchorError::UnsupportedScheme)
                } else {
                    Ok(root)
                }
            },
        }
    }

    /// Whether the bundle references recompute to `expected_root`. An empty
    /// fallback slot has no effect; a populated one makes the sub-anchor fail.
    pub fn verify(&self, refs: &Vec<BundleRef>, expected_root: &Digest) -> (ok: bool)
        ensures
            ok == (self@.commitment(refs@) matches Ok(root) && root == expected_root@),
    {
        match self.commitment(refs) {
            Ok(root) => hash_eq(&root, expected_root),
            Err(_) => false,
        }
    }
}

/// The sub-anchors of an anchor by contract, at most `MAX_CONTRACTS` of them.
/// The entries live in `amplify`'s confined ordered map.
#[verifier::external_body]
#[derive(Debug)]
pub struct ContractMap {
    inner: SmallOrdMap<[u8; 32], SubAnchor>,
}

/// The error of `amplify`'s confined collections, told when a collection
/// would leave its bounds. Nothing is read from it.
#[verifier::external_type_specification]
#[verifier::external_body]
pub struct ExConfinementError(amplify::confinement::Error);

/// What a contract map holds: the sub-anchor of each contract in it.
pub uninterp spec fn map_entries(map: ContractMap) -> Map<Seq<u8>, SubAnchor>;

/// The entries of a map that holds nothing.
pub open spec fn empty_entries() -> Map<Seq<u8>, SubAnchor> {
    Map::empty()
}

/// Whether a map holds exactly `count` entries.
pub open spec fn holds_count(entries: Map<Seq<u8>, SubAnchor>, count: nat) -> bool {
    entries.dom().finite() && entries.dom().len() == count
}

/// The contracts of an anchor that covers none.
pub open spec fn no_contracts() -> Map<Seq<u8>, SubAnchorView> {
    Map::empty()
}

/// Whether a map, taken as values, holds exactly `count` contracts.
pub open spec fn covers_count(contracts: Map<Seq<u8>, SubAnchorView>, count: nat) -> bool {
    contracts.dom().finite() && contracts.dom().len() == count
}

impl View for ContractMap {
    type V = Map<Seq<u8>, SubAnchorView>;

    open spec fn view(&self) -> Map<Seq<u8>, SubAnchorView> {
        map_entries(*self).map_values(|anchor: SubAnchor| anchor@)
    }
}

/// Calls `SmallOrdMap::new`, which makes an empty map.
#[verifier::external_body]
pub(crate) fn map_new() -> (empty: ContractMap)
    ensures
        map_entries(empty) == empty_entries(),
{
    ContractMap { inner: SmallOrdMap::new() }
}

/// Calls `len` of the confined map: the number of entries, which the
/// confinement keeps at or below 65535.
#[verifier::external_body]
pub(crate) fn map_len(map: &ContractMap) -> (len: usize)
    ensures
        holds_count(map_entries(*map), len as nat),
        len <= MAX_CONTRACTS,
{
    map.inner.len()
}

/// Calls `get` of the confined map, which is `BTreeMap::get`: the value
/// stored under the key, if there is one.
#[verifier::external_body]
pub(crate) fn map_get<'a>(map: &'a ContractMap, key: &[u8; 32]) -> (found: Option<&'a SubAnchor>)
    ensures
        match found {
            Some(anchor) => map_entries(*map).dom().contains(key@) && *anchor == map_entries(*map)[key@],
            None => !map_entries(*map).dom().contains(key@),
        },
{
    map.inner.get(key)
}

/// Calls `Confined::insert`. By the source, a map that already holds 65535
/// entries is left as it is and the call fails, also where the key is present;
/// otherwise the value is stored under the key and the value that it replaces,
/// if any, is returned.
#[verifier::external_body]
pub(crate) fn map_insert(map: &mut ContractMap, key: [u8; 32], value: SubAnchor) -> (replaced: Result<
    Option<SubAnchor>,
    amplify::confinement::Error,
>)
    ensures
        map_entries(*old(map)).dom().len() >= MAX_CONTRACTS ==> replaced.is_err() && map_entries(*final(map))
            == map_entries(*old(map)),
        map_entries(*old(map)).dom().len() < MAX_CONTRACTS ==> map_entries(*final(map)) == map_entries(
            *old(map),
        ).insert(key@, value) && match replaced {
            Ok(Some(previous)) => map_entries(*old(map)).dom().contains(key@) && previous == map_entries(
                *old(map),
            )[key@],
            Ok(None) => !map_entries(*old(map)).dom().contains(key@),
            Err(_) => false,
        },
{
    map.inner.insert(key, value)
}

/// Calls `keys` of the confined map, which is `BTreeMap::keys`: the keys in
/// ascending order, each once. Arrays of bytes are ordered byte by byte.
#[verifier::external_body]
pub(crate) fn map_keys(map: &ContractMap) -> (keys: Vec<[u8; 32]>)
    ensures
        is_listing(keys@, map_entries(*map).dom()),
{
    map.inner.keys().copied().collect()
}

/// The outcome of storing into a map that is full.
pub open spec fn full() -> Result<(), AnchorError> {
    Err(AnchorError::MalformedProof)
}

impl ContractMap {
    /// An empty map.
    pub fn new() -> (map: ContractMap)
        ensures
            map@ == no_contracts(),
    {
        let map = map_new();
        assert(map@ =~= no_contracts());
        map
    }

    /// The number of contracts in the map.
    pub fn len(&self) -> (len: usize)
        ensures
            covers_count(self@, len as nat),
            len <= MAX_CONTRACTS,
    {
        assert(self@.dom() =~= map_entries(*self).dom());
        map_len(self)
    }

    /// The sub-anchor of a contract.
    pub fn get(&self, contract: &ContractId) -> (found: Option<&SubAnchor>)
        ensures
            match found {
                Some(anchor) => self@.dom().contains(contract@) && anchor@ == self@[contract@],
                None => !self@.dom().contains(contract@),
            },
    {
        map_get(self, &contract.0)
    }

    /// The contracts of the map in ascending order.
    pub fn keys(&self) -> (keys: Vec<Digest>)
        ensures
            is_listing(keys@, self@.dom()),
            covers_count(self@, keys@.len() as nat),
            keys@.len() <= MAX_CONTRACTS,
    {
        assert(self@.dom() =~= map_entries(*self).dom());
        let keys = map_keys(self);
        let len = map_len(self);
        proof {
            assert forall|member: Seq<u8>| self@.dom().contains(member) implies member.len() == 32 by {
                let i = choose|i: int| 0 <= i < keys@.len() && #[trigger] keys@[i]@ == member;
            }
            lemma_listing_exists(self@.dom());
            lemma_listing_unique(keys@, listing_of(self@.dom()), self@.dom());
        }
        keys
    }

    /// Stores the sub-anchor of a contract, in place of an earlier one if
    /// there is one. A map that is full stays as it is and the call fails
    /// with `MalformedProof`, whether or not the contract is in it.
    pub fn insert(&mut self, contract: ContractId, anchor: SubAnchor) -> (outcome: Result<(), AnchorError>)
        ensures
            old(self)@.dom().len() < MAX_CONTRACTS ==> outcome.is_ok() && final(self)@ == old(self)@.insert(
                contract@,
                anchor@,
            ),
            old(self)@.dom().len() >= MAX_CONTRACTS ==> outcome == full() && final(self)@ == old(self)@,
    {
        assert(self@.dom() =~= map_entries(*self).dom());
        let ghost before = map_entries(*self);
        let stored = map_insert(self, contract.0, anchor);
        proof {
            if before.dom().len() < MAX_CONTRACTS {
                assert(self@ =~= before.map_values(|a: SubAnchor| a@).insert(contract@, anchor@));
            }
        }
        match stored {
            Ok(_) => Ok(()),
            Err(_) => Err(AnchorError::MalformedProof),
        }
    }
}

} // verus!
