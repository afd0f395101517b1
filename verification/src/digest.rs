//! Digests of the commitment trees. The hash function itself is not modelled:
//! each digest is an uninterpreted function of the values that enter it.

use vstd::prelude::*;
use commit_verify::merkle::MerkleHash;
use commit_verify::mpc::{Leaf, Message, ProtocolId};
use commit_verify::{CommitId, DigestExt, Sha256};
use amplify::ByteArray;

verus! {

/// A 32-byte digest.
pub type Digest = [u8; 32];

/// The digest of a tree node with two children, as a function of the node's
/// depth, the width of the tree and the two child digests.
pub uninterp spec fn branch_digest(depth: u8, width: u32, left: Seq<u8>, right: Seq<u8>) -> Seq<u8>;

/// The digest of the leaf that a contract occupies in the multi-protocol tree,
/// as a function of the contract identifier and the message committed under it.
pub uninterp spec fn contract_leaf_digest(contract: Seq<u8>, message: Seq<u8>) -> Seq<u8>;

/// The tagged digest of a byte string, as a function of the tag and the bytes.
pub uninterp spec fn tagged_digest(tag: Seq<char>, data: Seq<u8>) -> Seq<u8>;

/// Calls `commit_verify::merkle::MerkleHash::branches`, the commitment to a
/// branching node of a merkle tree. The contract only names the result: equal
/// arguments give equal digests, and a digest has 32 bytes by its type.
#[verifier::external_body]
pub(crate) fn hash_branch(depth: u8, width: u32, left: &Digest, right: &Digest) -> (digest: Digest)
    ensures
        digest@ == branch_digest(depth, width, left@, right@),
{
    MerkleHash::branches(depth, width, MerkleHash::from(*left), MerkleHash::from(*right))
        .to_byte_array()
}

/// Calls `commit_id` on `commit_verify::mpc::Leaf::inhabited`, the commitment
/// to an inhabited leaf of the multi-protocol tree. The contract only names the
/// result.
#[verifier::external_body]
pub(crate) fn hash_contract_leaf(contract: &Digest, message: &Digest) -> (digest: Digest)
    ensures
        digest@ == contract_leaf_digest(contract@, message@),
{
    Leaf::inhabited(ProtocolId::from(*contract), Message::from(*message)).commit_id().to_byte_array()
}

/// Calls `commit_verify`'s tagged SHA-256 (`Sha256::from_tag`, `input_raw`,
/// `finish`) on a byte string. The contract only names the result.
#[verifier::external_body]
pub(crate) fn hash_tagged(tag: &str, data: &Vec<u8>) -> (digest: Digest)
    ensures
        digest@ == tagged_digest(tag@, data@),
{
    let mut engine = Sha256::from_tag(tag);
    engine.input_raw(data.as_slice());
    engine.finish()
}

/// Whether two digests hold the same bytes.
pub fn hash_eq(a: &Digest, b: &Digest) -> (same: bool)
    ensures
        same == (a@ == b@),
{
    let mut i: usize = 0;
    while i < 32
        invariant
            i <= 32,
            forall|j: int| 0 <= j < i ==> a@[j] == b@[j],
        decreases 32 - i,
    {
        if a[i] != b[i] {
            return false;
        }
        i += 1;
    }
    assert(a@ =~= b@);
    true
}

/// Byte-wise lexicographic order on digests: the first byte that differs
/// decides.
pub open spec fn digest_lt(a: Seq<u8>, b: Seq<u8>) -> bool {
    exists|k: int|
        0 <= k < a.len() && k < b.len() && a[k] < b[k] && (forall|j: int|
            0 <= j < k ==> a[j] == b[j])
}

/// Whether each digest of the sequence is below the next one: the sequence
/// then lists a set, each member once.
pub open spec fn strictly_ascending(digests: Seq<Digest>) -> bool {
    forall|i: int| 0 <= i < digests.len() - 1 ==> digest_lt(#[trigger] digests[i]@, digests[i + 1]@)
}

/// The order is transitive.
pub proof fn lemma_digest_lt_transitive(a: Seq<u8>, b: Seq<u8>, c: Seq<u8>)
    requires
        digest_lt(a, b),
        digest_lt(b, c),
    ensures
        digest_lt(a, c),
{
    let i = choose|k: int| 0 <= k < a.len() && k < b.len() && a[k] < b[k] && (forall|j: int| 0 <= j < k ==> a[j] == b[j]);
    let j = choose|k: int| 0 <= k < b.len() && k < c.len() && b[k] < c[k] && (forall|j: int| 0 <= j < k ==> b[j] == c[j]);
    let k = if i <= j {
        i
    } else {
        j
    };
    assert(0 <= k < a.len() && k < c.len() && a[k] < c[k] && (forall|m: int| 0 <= m < k ==> a[m] == c[m]));
}

/// In a strictly ascending sequence an earlier digest is below a later one,
/// so no digest occurs twice.
pub proof fn lemma_ascending_ordered(digests: Seq<Digest>, i: int, j: int)
    requires
        strictly_ascending(digests),
        0 <= i < j < digests.len(),
    ensures
        digest_lt(digests[i]@, digests[j]@),
        digests[i]@ != digests[j]@,
    decreases j - i,
{
    if i + 1 < j {
        lemma_ascending_ordered(digests, i, j - 1);
        assert(digest_lt(digests[j - 1]@, digests[j - 1 + 1]@));
        lemma_digest_lt_transitive(digests[i]@, digests[j - 1]@, digests[j]@);
    } else {
        assert(digest_lt(digests[i]@, digests[i + 1]@));
    }
}

/// Whether `a` comes before `b` in byte-wise lexicographic order.
pub fn hash_lt(a: &Digest, b: &Digest) -> (below: bool)
    ensures
        below == digest_lt(a@, b@),
{
    let mut i: usize = 0;
    while i < 32
        invariant
            i <= 32,
            forall|j: int| 0 <= j < i ==> a@[j] == b@[j],
        decreases 32 - i,
    {
        if a[i] < b[i] {
            return true;
        }
        if a[i] > b[i] {
            assert forall|k: int|
                0 <= k < a@.len() && k < b@.len() && a@[k] < b@[k] implies !(forall|j: int|
                0 <= j < k ==> a@[j] == b@[j]) by {
                if k > i {
                    assert(a@[i as int] != b@[i as int]);
                }
            }
            return false;
        }
        i += 1;
    }
    false
}

/// Whether the digests are strictly ascending.
pub fn is_strictly_ascending(digests: &Vec<Digest>) -> (ordered: bool)
    ensures
        ordered == strictly_ascending(digests@),
{
    if digests.len() < 2 {
        return true;
    }
    let mut i: usize = 0;
    while i < digests.len() - 1
        invariant
            digests@.len() >= 2,
            i <= digests@.len() - 1,
            forall|j: int| 0 <= j < i ==> digest_lt(#[trigger] digests@[j]@, digests@[j + 1]@),
        decreases digests@.len() - i,
    {
        if !hash_lt(&digests[i], &digests[i + 1]) {
            return false;
        }
        i += 1;
    }
    true
}

} // verus!
