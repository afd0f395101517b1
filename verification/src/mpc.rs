//! The multi-protocol layer: one tree whose leaves belong to many contracts,
//! and the proof that a contract's message sits under the tree's commitment.

use vstd::prelude::*;
use vstd::arithmetic::power2::pow2;
use vstd::arithmetic::div_mod::{lemma_add_mod_noop, lemma_mul_mod_noop_right, lemma_small_mod};
use crate::digest::{Digest, contract_leaf_digest, hash_contract_leaf, hash_eq, hash_tagged, tagged_digest};
use crate::merkle::{MAX_DEPTH, fold_path, path_root, tree_width};

verus! {

/// The identifier of a contract: 32 bytes derived from the contract's content.
#[derive(Clone, Copy, Debug, PartialEq, Eq, PartialOrd, Ord, Hash)]
pub struct ContractId(pub [u8; 32]);

impl View for ContractId {
    type V = Seq<u8>;

    open spec fn view(&self) -> Seq<u8> {
        self.0@
    }
}

/// The tag that separates tree commitments from every other digest.
pub const COMMITMENT_TAG: &'static str = "urn:ubideco:mpc:commitment#2024-01-31";

/// The number that a byte string denotes when read with the low byte first.
pub open spec fn le_value(bytes: Seq<u8>) -> nat
    decreases bytes.len(),
{
    if bytes.len() == 0 {
        0
    } else {
        bytes[0] as nat + 256 * le_value(bytes.drop_first())
    }
}

/// The number of leaf slots that contracts are spread over: the tree's width
/// less the cofactor, and at least one.
pub open spec fn slot_count(width: nat, cofactor: u16) -> nat {
    if width > cofactor {
        (width - cofactor) as nat
    } else {
        1
    }
}

/// The leaf position of a contract in a tree of the given width: its
/// identifier, read as a number, modulo the slot count.
pub open spec fn contract_position(contract: Seq<u8>, cofactor: u16, width: nat) -> nat {
    le_value(contract) % slot_count(width, cofactor)
}

/// The bytes that a tree commitment is taken over: depth, cofactor (low byte
/// first) and the merkle root.
pub open spec fn commitment_bytes(depth: u8, cofactor: u16, merkle_root: Seq<u8>) -> Seq<u8> {
    seq![depth, (cofactor % 256) as u8, (cofactor / 256) as u8] + merkle_root
}

/// The commitment to a tree of the given shape and merkle root.
pub open spec fn tree_commitment(depth: u8, cofactor: u16, merkle_root: Seq<u8>) -> Seq<u8> {
    tagged_digest(COMMITMENT_TAG@, commitment_bytes(depth, cofactor, merkle_root))
}

/// The commitment that a contract's message and co-path convolve to; `None`
/// where the path is longer than the deepest tree.
pub open spec fn convolved(contract: Seq<u8>, message: Seq<u8>, cofactor: u16, path: Seq<Digest>) -> Option<
    Seq<u8>,
> {
    if path.len() <= MAX_DEPTH {
        Some(
            tree_commitment(
                path.len() as u8,
                cofactor,
                path_root(
                    contract_leaf_digest(contract, message),
                    contract_position(contract, cofactor, pow2(path.len())),
                    path,
                ),
            ),
        )
    } else {
        None
    }
}

proof fn lemma_le_value_step(bytes: Seq<u8>, i: int, modulus: int)
    requires
        0 < i <= bytes.len(),
        0 < modulus,
    ensures
        le_value(bytes.skip(i - 1)) % (modulus as nat) == ((256 * (le_value(bytes.skip(i)) % (
        modulus as nat)) + bytes[i - 1]) % modulus) as nat,
{
    let tail = bytes.skip(i - 1);
    assert(tail.drop_first() =~= bytes.skip(i));
    assert(tail[0] == bytes[i - 1]);
    let x = le_value(bytes.skip(i)) as int;
    let b = bytes[i - 1] as int;
    lemma_mul_mod_noop_right(256, x, modulus);
    lemma_add_mod_noop(256 * (x % modulus), b, modulus);
    lemma_add_mod_noop(256 * x, b, modulus);
}

/// Computes the leaf position of a contract in a tree of the given width.
/// The position lies inside the tree, whatever the cofactor.
pub fn position_of(contract: &ContractId, cofactor: u16, width: u32) -> (position: u32)
    ensures
        position == contract_position(contract@, cofactor, width as nat),
        width >= 1 ==> position < width,
{
    let modulus: u64 = if width > cofactor as u32 {
        (width - cofactor as u32) as u64
    } else {
        1
    };
    let mut rest: u64 = 0;
    let mut i: usize = 32;
    proof {
        assert(contract@.skip(32).len() == 0);
        lemma_small_mod(0, modulus as nat);
    }
    while i > 0
        invariant
            i <= 32,
            0 < modulus <= u32::MAX,
            width >= 1 ==> modulus <= width,
            modulus == slot_count(width as nat, cofactor),
            rest == le_value(contract@.skip(i as int)) % (modulus as nat),
            rest < modulus,
        decreases i,
    {
        proof {
            lemma_le_value_step(contract@, i as int, modulus as int);
        }
        i -= 1;
        rest = (rest * 256 + contract.0[i] as u64) % modulus;
    }
    assert(contract@.skip(0) =~= contract@);
    rest as u32
}

/// Writes the bytes that a tree commitment is taken over.
fn encode_commitment(depth: u8, cofactor: u16, merkle_root: &Digest) -> (bytes: Vec<u8>)
    ensures
        bytes@ == commitment_bytes(depth, cofactor, merkle_root@),
{
    let mut bytes: Vec<u8> = Vec::new();
    bytes.push(depth);
    bytes.push((cofactor % 256) as u8);
    bytes.push((cofactor / 256) as u8);
    let ghost head = bytes@;
    let mut k: usize = 0;
    while k < 32
        invariant
            k <= 32,
            bytes@ == head + merkle_root@.take(k as int),
        decreases 32 - k,
    {
        bytes.push(merkle_root[k]);
        assert(merkle_root@.take(k + 1) =~= merkle_root@.take(k as int).push(merkle_root@[k as int]));
        k += 1;
    }
    assert(merkle_root@.take(32) =~= merkle_root@);
    bytes
}

/// Convolves a contract's message with its co-path: places the contract's
/// leaf at the position that its identifier gives, folds the path into the
/// merkle root and commits to the tree. `None` exactly when the path is
/// longer than the deepest tree.
pub fn convolve(contract: &ContractId, message: &Digest, cofactor: u16, path: &Vec<Digest>) -> (commitment:
    Option<Digest>)
    ensures
        match (commitment, convolved(contract@, message@, cofactor, path@)) {
            (Some(c), Some(s)) => c@ == s,
            (None, None) => true,
            _ => false,
        },
{
    let width = match tree_width(path.len()) {
        Some(w) => w,
        None => {
            return None;
        },
    };
    proof {
        vstd::arithmetic::power2::lemma_pow2_pos(path@.len());
    }
    let position = position_of(contract, cofactor, width);
    let leaf = hash_contract_leaf(&contract.0, message);
    match fold_path(&leaf, position, path) {
        Some(merkle_root) => {
            let bytes = encode_commitment(path.len() as u8, cofactor, &merkle_root);
            Some(hash_tagged(COMMITMENT_TAG, &bytes))
        },
        None => None,
    }
}

/// What a block reveals of one contract: the message committed under it and
/// the siblings on the way from the root to its leaf, nearest the root first.
#[derive(Clone, Debug)]
pub struct MpcEntry {
    pub contract: ContractId,
    pub message: Digest,
    pub path: Vec<Digest>,
}

/// An entry as values.
pub struct MpcEntryView {
    pub contract: ContractId,
    pub message: Digest,
    pub path: Seq<Digest>,
}

impl View for MpcEntry {
    type V = MpcEntryView;

    open spec fn view(&self) -> MpcEntryView {
        MpcEntryView { contract: self.contract, message: self.message, path: self.path@ }
    }
}

/// A partly revealed multi-protocol tree: its shape, its commitment, and one
/// entry for each contract whose leaf it reveals, in the order of their
/// positions. Every other leaf stays a digest inside some path.
#[derive(Clone, Debug)]
pub struct MerkleBlock {
    pub depth: u8,
    pub cofactor: u16,
    pub root: Digest,
    pub entries: Vec<MpcEntry>,
}

/// A block as values.
pub struct MerkleBlockView {
    pub depth: u8,
    pub cofactor: u16,
    pub root: Digest,
    pub entries: Seq<MpcEntryView>,
}

impl View for MerkleBlock {
    type V = MerkleBlockView;

    open spec fn view(&self) -> MerkleBlockView {
        MerkleBlockView {
            depth: self.depth,
            cofactor: self.cofactor,
            root: self.root,
            entries: self.entries@.map_values(|e: MpcEntry| e@),
        }
    }
}

impl MerkleBlockView {
    /// The leaf position of the `i`-th entry.
    pub open spec fn position(self, i: int) -> nat {
        contract_position(self.entries[i].contract@, self.cofactor, pow2(self.depth as nat))
    }

    /// Whether the block is structurally sound: the depth is one that a tree
    /// can have, each path is as long as the tree is deep, and the entries
    /// stand at strictly ascending positions, so no leaf is claimed twice.
    pub open spec fn well_formed(self) -> bool {
        &&& self.depth <= MAX_DEPTH
        &&& forall|i: int| 0 <= i < self.entries.len() ==> (#[trigger] self.entries[i]).path.len() == self.depth
        &&& forall|i: int, j: int|
            0 <= i < j < self.entries.len() ==> #[trigger] self.position(i) < #[trigger] self.position(j)
    }

    /// Whether the block has an entry for the contract.
    pub open spec fn reveals(self, contract: Seq<u8>) -> bool {
        exists|i: int| 0 <= i < self.entries.len() && (#[trigger] self.entries[i]).contract@ == contract
    }

    /// The index of the first entry for the contract. It is meant for a
    /// contract that the block reveals.
    pub open spec fn entry_of(self, contract: Seq<u8>) -> int {
        choose|i: int|
            0 <= i < self.entries.len() && (#[trigger] self.entries[i]).contract@ == contract && (forall|j: int|
                0 <= j < i ==> (#[trigger] self.entries[j]).contract@ != contract)
    }

    /// The message that the block holds for a contract that it reveals.
    pub open spec fn message_of(self, contract: Seq<u8>) -> Seq<u8> {
        self.entries[self.entry_of(contract)].message@
    }

    /// The commitment that the `i`-th entry convolves to.
    pub open spec fn entry_commitment(self, i: int) -> Option<Seq<u8>> {
        let entry = self.entries[i];
        convolved(entry.contract@, entry.message@, self.cofactor, entry.path)
    }

    /// Whether verification of a contract's leaf against a root succeeds: the
    /// block is well formed, reveals `leaf` as the contract's message, and that
    /// message with its co-path convolves to `expected_root`.
    pub open spec fn verifies(self, contract: Seq<u8>, leaf: Seq<u8>, expected_root: Seq<u8>) -> bool {
        &&& self.well_formed()
        &&& self.reveals(contract)
        &&& self.message_of(contract) == leaf
        &&& self.entry_commitment(self.entry_of(contract)) == Some(expected_root)
    }

    /// Whether the block is well formed and each of its entries convolves to
    /// its root: every leaf that it reveals is then under the root.
    pub open spec fn consistent(self) -> bool {
        &&& self.well_formed()
        &&& forall|i: int| 0 <= i < self.entries.len() ==> #[trigger] self.entry_commitment(i) == Some(self.root@)
    }

    /// A well-formed block holds at most one entry for a contract.
    pub proof fn lemma_entry_unique(self, i: int, j: int)
        requires
            self.well_formed(),
            0 <= i < self.entries.len(),
            0 <= j < self.entries.len(),
            self.entries[i].contract@ == self.entries[j].contract@,
        ensures
            i == j,
    {
        if i < j {
            assert(self.position(i) < self.position(j));
        } else if j < i {
            assert(self.position(j) < self.position(i));
        }
    }
}

impl MerkleBlock {
    /// Checks the structure of the block without hashing anything.
    pub fn is_well_formed(&self) -> (ok: bool)
        ensures
            ok == self@.well_formed(),
    {
        let width = match tree_width(self.depth as usize) {
            Some(w) => w,
            None => {
                return false;
            },
        };
        proof {
            vstd::arithmetic::power2::lemma_pow2_pos(self.depth as nat);
        }
        let ghost view = self@;
        let mut previous: u32 = 0;
        let mut i: usize = 0;
        while i < self.entries.len()
            invariant
                view == self@,
                i <= self.entries@.len(),
                self.depth <= MAX_DEPTH,
                1 <= width == pow2(self.depth as nat),
                forall|k: int| 0 <= k < i ==> (#[trigger] view.entries[k]).path.len() == self.depth,
                forall|a: int, b: int| 0 <= a < b < i ==> #[trigger] view.position(a) < #[trigger] view.position(b),
                i > 0 ==> previous == view.position(i - 1),
            decreases self.entries@.len() - i,
        {
            let entry = &self.entries[i];
            assert(view.entries[i as int] == entry@);
            if entry.path.len() != self.depth as usize {
                return false;
            }
            let position = position_of(&entry.contract, self.cofactor, width);
            if i > 0 && position <= previous {
                assert(!(view.position(i - 1) < view.position(i as int)));
                return false;
            }
            assert forall|a: int, b: int| 0 <= a < b < i + 1 implies #[trigger] view.position(a)
                < #[trigger] view.position(b) by {
                if b == i && a < i - 1 {
                    assert(view.position(a) < view.position(i - 1));
                }
            }
            previous = position;
            i += 1;
        }
        true
    }

    /// Checks that the block is well formed and that every entry convolves
    /// to the root.
    pub fn is_consistent(&self) -> (ok: bool)
        ensures
            ok == self@.consistent(),
    {
        if !self.is_well_formed() {
            return false;
        }
        let ghost view = self@;
        let mut i: usize = 0;
        while i < self.entries.len()
            invariant
                view == self@,
                i <= self.entries@.len(),
                forall|k: int| 0 <= k < i ==> #[trigger] view.entry_commitment(k) == Some(view.root@),
            decreases self.entries@.len() - i,
        {
            let entry = &self.entries[i];
            assert(view.entries[i as int] == entry@);
            let under_root = match convolve(&entry.contract, &entry.message, self.cofactor, &entry.path) {
                Some(commitment) => hash_eq(&commitment, &self.root),
                None => false,
            };
            if !under_root {
                assert(view.entry_commitment(i as int) != Some(view.root@));
                return false;
            }
            i += 1;
        }
        true
    }

    /// Finds the first entry for a contract.
    pub fn find(&self, contract: &ContractId) -> (found: Option<usize>)
        ensures
            found.is_some() == self@.reveals(contract@),
            found matches Some(i) ==> i < self.entries@.len() && i == self@.entry_of(contract@)
                && self.entries@[i as int].contract@ == contract@,
    {
        let ghost view = self@;
        let mut i: usize = 0;
        while i < self.entries.len()
            invariant
                view == self@,
                i <= self.entries@.len(),
                forall|j: int| 0 <= j < i ==> (#[trigger] view.entries[j]).contract@ != contract@,
            decreases self.entries@.len() - i,
        {
            assert(view.entries[i as int] == self.entries@[i as int]@);
            if hash_eq(&self.entries[i].contract.0, &contract.0) {
                proof {
                    let e = view.entry_of(contract@);
                    assert(view.entries[i as int].contract@ == contract@);
                    assert(e == i) by {
                        if e < i {
                            assert(view.entries[e].contract@ != contract@);
                        } else if e > i {
                            assert(view.entries[i as int].contract@ != contract@);
                        }
                    }
                }
                return Some(i);
            }
            i += 1;
        }
        None
    }

    /// Verifies that `leaf` is the contract's message under `expected_root`:
    /// recomputes the commitment from the leaf and the co-path that the block
    /// reveals for the contract, at the position that the identifier gives.
    pub fn verify(&self, contract_id: &ContractId, leaf: &Digest, expected_root: &Digest) -> (ok: bool)
        ensures
            ok == self@.verifies(contract_id@, leaf@, expected_root@),
    {
        if !self.is_well_formed() {
            return false;
        }
        let index = match self.find(contract_id) {
            Some(i) => i,
            None => {
                return false;
            },
        };
        let entry = &self.entries[index];
        assert(self@.entries[index as int] == entry@);
        if !hash_eq(&entry.message, leaf) {
            return false;
        }
        match convolve(&entry.contract, &entry.message, self.cofactor, &entry.path) {
            Some(commitment) => hash_eq(&commitment, expected_root),
            None => false,
        }
    }
}

} // verus!
