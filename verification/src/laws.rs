//! What holds of verification as a whole, proved from the definitions of the
//! layers.

use vstd::prelude::*;
use crate::anchor::SuperAnchorView;
use crate::encoding::anchor::{anchor_encodable, decoded, encoded, lemma_decoded_encoded};
use crate::error::AnchorError;
use crate::mmb::{BundleRef, bundle_set_ok};

verus! {

/// Verification is all or nothing: it succeeds exactly when the anchor covers
/// the contract and all three layers hold on their own terms, that is, the
/// sub-anchor recomputes the bundles to some leaf, the block verifies that
/// leaf against the root, and the transaction proof checks against the root.
pub proof fn law_all_or_nothing(
    anchor: SuperAnchorView,
    contract: Seq<u8>,
    refs: Seq<BundleRef>,
    outputs: Seq<Seq<u8>>,
)
    ensures
        anchor.failure(contract, refs, outputs).is_none() <==> (anchor.covers(contract) && (
        anchor.contracts[contract].commitment(refs) matches Ok(leaf) && anchor.mpc_proof.verifies(
            contract,
            leaf,
            anchor.mpc_proof.root@,
        )) && anchor.dbc_proof.check(anchor.mpc_proof.root@, outputs).is_ok()),
{
}

/// A layer that fails makes verification fail, whatever the other two do.
pub proof fn law_each_layer_is_needed(
    anchor: SuperAnchorView,
    contract: Seq<u8>,
    refs: Seq<BundleRef>,
    outputs: Seq<Seq<u8>>,
)
    requires
        !anchor.bundles_match(contract, refs) || !anchor.commitment_matches(contract)
            || !anchor.transaction_matches(outputs),
    ensures
        anchor.failure(contract, refs, outputs).is_some(),
{
}

/// Verification succeeds only where the sub-anchor stored for the contract
/// recomputes the bundles to the very message that the block holds for that
/// contract.
pub proof fn law_leaf_binding(
    anchor: SuperAnchorView,
    contract: Seq<u8>,
    refs: Seq<BundleRef>,
    outputs: Seq<Seq<u8>>,
)
    requires
        anchor.failure(contract, refs, outputs).is_none(),
    ensures
        anchor.contracts[contract].commitment(refs) == Ok::<Seq<u8>, AnchorError>(
            anchor.mpc_proof.message_of(contract),
        ),
{
}

/// Swapping the sub-anchors of two contracts under an unchanged block makes
/// verification fail for both, where the two sub-anchors bind the bundles of
/// each contract to different leaves.
pub proof fn law_swapped_sub_anchors_fail(
    anchor: SuperAnchorView,
    swapped: SuperAnchorView,
    first: Seq<u8>,
    second: Seq<u8>,
    first_refs: Seq<BundleRef>,
    second_refs: Seq<BundleRef>,
    outputs: Seq<Seq<u8>>,
)
    requires
        first != second,
        anchor.covers(first),
        anchor.covers(second),
        swapped.mpc_proof == anchor.mpc_proof,
        swapped.contracts == anchor.contracts.insert(first, anchor.contracts[second]).insert(
            second,
            anchor.contracts[first],
        ),
        anchor.failure(first, first_refs, outputs).is_none(),
        anchor.failure(second, second_refs, outputs).is_none(),
        anchor.contracts[second].commitment(first_refs) != anchor.contracts[first].commitment(first_refs),
        anchor.contracts[first].commitment(second_refs) != anchor.contracts[second].commitment(second_refs),
    ensures
        swapped.failure(first, first_refs, outputs).is_some(),
        swapped.failure(second, second_refs, outputs).is_some(),
{
    assert(swapped.contracts[first] == anchor.contracts[second]);
    assert(swapped.contracts[second] == anchor.contracts[first]);
}

/// A structurally sound anchor is told to be malformed only for bundle
/// references that do not list a set.
pub proof fn law_sound_anchor_is_not_malformed(
    anchor: SuperAnchorView,
    contract: Seq<u8>,
    refs: Seq<BundleRef>,
    outputs: Seq<Seq<u8>>,
)
    requires
        anchor.well_formed(),
        anchor.covers(contract),
    ensures
        anchor.failure(contract, refs, outputs) == Some(AnchorError::MalformedProof) <==> !bundle_set_ok(refs),
{
}

/// An anchor that covers no contract has a root all the same, and tells every
/// contract that it is unknown; whether the transaction commits to the root is
/// decided by the root and the transaction proof alone.
pub proof fn law_empty_anchor(
    anchor: SuperAnchorView,
    contract: Seq<u8>,
    refs: Seq<BundleRef>,
    outputs: Seq<Seq<u8>>,
)
    requires
        anchor.contracts.dom() =~= Set::<Seq<u8>>::empty(),
    ensures
        anchor.failure(contract, refs, outputs) == Some(AnchorError::UnknownContract),
        anchor.dbc_proof.check(anchor.mpc_proof.root@, outputs).is_ok() == (anchor.dbc_proof.supported()
            && anchor.transaction_matches(outputs)),
{
}

/// Writing an anchor and reading it back changes nothing: the copy is the
/// anchor that was written, so verification of the copy, of any contract and
/// against any transaction, ends as verification of the anchor that was written does.
pub proof fn law_round_trip(
    anchor: SuperAnchorView,
    contract: Seq<u8>,
    refs: Seq<BundleRef>,
    outputs: Seq<Seq<u8>>,
)
    requires
        anchor_encodable(anchor),
    ensures
        decoded(encoded(anchor)) == Some(anchor),
        decoded(encoded(anchor)) matches Some(copy) && copy.failure(contract, refs, outputs) == anchor.failure(
            contract,
            refs,
            outputs,
        ),
{
    lemma_decoded_encoded(anchor);
}

/// The encoding is canonical: bytes that are read as an anchor are the
/// encoding of no other anchor, and two anchors with the same encoding are
/// the same anchor.
pub proof fn law_encoding_is_injective(first: SuperAnchorView, second: SuperAnchorView)
    requires
        anchor_encodable(first),
        anchor_encodable(second),
        encoded(first) == encoded(second),
    ensures
        first == second,
{
    lemma_decoded_encoded(first);
    lemma_decoded_encoded(second);
}

} // verus!
