//! The encoding of a whole anchor: the block, the transaction proof, and the
//! sub-anchors by contract in ascending order of the contracts.

use vstd::prelude::*;
use crate::anchor::{SuperAnchor, SuperAnchorView};
use crate::contracts::{ContractMap, SubAnchorView, MAX_CONTRACTS};
use crate::listing::{is_listing, lemma_listing_exists, lemma_listing_unique, listing_of};
use crate::digest::{Digest, is_strictly_ascending, lemma_ascending_ordered, strictly_ascending};
use crate::encoding::block::{
    block_encodable, dbc_encodable, get_block, get_dbc, is_block_encodable, is_dbc_encodable, lemma_read_block,
    lemma_read_dbc, put_block, put_dbc, read_block, read_dbc, write_block, write_dbc,
};
use crate::encoding::{get_sub_anchor, lemma_read_sub_anchor, put_sub_anchor, read_sub_anchor, write_sub_anchor};
use crate::error::AnchorError;
use crate::merkle::MAX_DEPTH;
use crate::mpc::ContractId;
use crate::wire::{
    get16, get_digest, le16, lemma_read16, lemma_read_digest, lemma_read_seq, lemma_resumes_end,
    lemma_resumes_start, lemma_resumes_step, lemma_write_seq_push, put16, put_digest, read16, read_digest,
    read_seq, resumes, write_seq,
};

verus! {

/// A contract with its sub-anchor.
pub type Pair = (Digest, SubAnchorView);

/// How a contract and its sub-anchor are written: the identifier, then the
/// sub-anchor.
pub open spec fn pair_writer() -> spec_fn(Pair) -> Seq<u8> {
    |pair: Pair| pair.0@ + write_sub_anchor(pair.1)
}

/// How a contract and its sub-anchor are read.
pub open spec fn pair_reader() -> spec_fn(Seq<u8>) -> Option<(Pair, Seq<u8>)> {
    |bytes: Seq<u8>|
        match read_digest(bytes) {
            Some((contract, rest)) => match read_sub_anchor(rest) {
                Some((anchor, end)) => Some(((contract, anchor), end)),
                None => None,
            },
            None => None,
        }
}

/// The contracts of `keys`, each with the sub-anchor that the map holds for
/// it.
pub open spec fn pairs_of(contracts: Map<Seq<u8>, SubAnchorView>, keys: Seq<Digest>) -> Seq<Pair> {
    Seq::new(keys.len(), |i: int| (keys[i], contracts[keys[i]@]))
}

/// The contracts of a sequence of pairs.
pub open spec fn keys_of(pairs: Seq<Pair>) -> Seq<Digest> {
    Seq::new(pairs.len(), |i: int| pairs[i].0)
}

/// The map that holds each pair of the sequence.
pub open spec fn map_of(pairs: Seq<Pair>) -> Map<Seq<u8>, SubAnchorView>
    decreases pairs.len(),
{
    if pairs.len() == 0 {
        Map::empty()
    } else {
        map_of(pairs.drop_last()).insert(pairs.last().0@, pairs.last().1)
    }
}

/// Whether an anchor can be written: the block and the transaction proof
/// can, it covers a finite number of contracts that fits two bytes, each
/// contract is named by 32 bytes, and no sub-anchor holds a path longer than
/// the deepest tree.
pub open spec fn anchor_encodable(anchor: SuperAnchorView) -> bool {
    &&& block_encodable(anchor.mpc_proof)
    &&& dbc_encodable(anchor.dbc_proof)
    &&& anchor.contracts.dom().finite()
    &&& anchor.contracts.dom().len() <= MAX_CONTRACTS
    &&& forall|contract: Seq<u8>| #[trigger] anchor.contracts.dom().contains(contract) ==> contract.len() == 32
    &&& forall|contract: Seq<u8>| #[trigger]
        anchor.contracts.dom().contains(contract) ==> anchor.contracts[contract].mmb_proof.siblings.len()
            <= MAX_DEPTH
}

/// The contracts listed by `keys` with their sub-anchors: their number in
/// two bytes, then each contract followed by its sub-anchor.
pub open spec fn write_contracts(contracts: Map<Seq<u8>, SubAnchorView>, keys: Seq<Digest>) -> Seq<u8> {
    le16(keys.len() as u16) + write_seq(pairs_of(contracts, keys), pair_writer())
}

/// Reads contracts with their sub-anchors.
pub open spec fn read_contracts(bytes: Seq<u8>) -> Option<(Seq<Pair>, Seq<u8>)> {
    match read16(bytes) {
        Some((count, rest)) => read_seq(rest, count as nat, pair_reader()),
        None => None,
    }
}

/// The bytes of an anchor whose contracts are listed by `keys`.
pub open spec fn write_anchor(anchor: SuperAnchorView, keys: Seq<Digest>) -> Seq<u8> {
    write_block(anchor.mpc_proof) + write_dbc(anchor.dbc_proof) + write_contracts(anchor.contracts, keys)
}

/// The encoding of an anchor.
pub open spec fn encoded(anchor: SuperAnchorView) -> Seq<u8> {
    write_anchor(anchor, listing_of(anchor.contracts.dom()))
}

/// The anchor that a byte string encodes, `None` where it encodes none: the
/// parts must be there in full, the contracts in strictly ascending order, and
/// nothing may follow.
pub open spec fn decoded(bytes: Seq<u8>) -> Option<SuperAnchorView> {
    match read_block(bytes) {
        Some((mpc_proof, after_block)) => match read_dbc(after_block) {
            Some((dbc_proof, after_dbc)) => match read_contracts(after_dbc) {
                Some((pairs, end)) => if end.len() == 0 && strictly_ascending(keys_of(pairs)) {
                    Some(SuperAnchorView { mpc_proof, dbc_proof, contracts: map_of(pairs) })
                } else {
                    None
                },
                None => None,
            },
            None => None,
        },
        None => None,
    }
}

/// The map of a sequence of pairs holds nothing but the pairs, and where no
/// contract occurs twice it holds each pair.
pub proof fn lemma_map_of(pairs: Seq<Pair>)
    ensures
        map_of(pairs).dom().finite(),
        map_of(pairs).dom().len() <= pairs.len(),
        forall|contract: Seq<u8>| #[trigger]
            map_of(pairs).dom().contains(contract) ==> exists|i: int|
                0 <= i < pairs.len() && (#[trigger] pairs[i]).0@ == contract,
        forall|i: int| 0 <= i < pairs.len() ==> map_of(pairs).dom().contains((#[trigger] pairs[i]).0@),
        strictly_ascending(keys_of(pairs)) ==> forall|i: int|
            0 <= i < pairs.len() ==> map_of(pairs)[(#[trigger] pairs[i]).0@] == pairs[i].1,
    decreases pairs.len(),
{
    if pairs.len() > 0 {
        let front = pairs.drop_last();
        let last = pairs.last();
        lemma_map_of(front);
        assert forall|contract: Seq<u8>| #[trigger] map_of(pairs).dom().contains(contract) implies exists|i: int|
            0 <= i < pairs.len() && (#[trigger] pairs[i]).0@ == contract by {
            if contract == last.0@ {
                assert(pairs[pairs.len() - 1].0@ == contract);
            } else {
                assert(map_of(front).dom().contains(contract));
                let i = choose|i: int| 0 <= i < front.len() && (#[trigger] front[i]).0@ == contract;
                assert(pairs[i].0@ == contract);
            }
        }
        assert forall|i: int| 0 <= i < pairs.len() implies map_of(pairs).dom().contains((#[trigger] pairs[i]).0@) by {
            if i < front.len() {
                assert(front[i] == pairs[i]);
            }
        }
        if strictly_ascending(keys_of(pairs)) {
            let keys = keys_of(pairs);
            assert(keys_of(front) =~= keys.drop_last());
            assert forall|i: int| 0 <= i < keys_of(front).len() - 1 implies crate::digest::digest_lt(
                #[trigger] keys_of(front)[i]@,
                keys_of(front)[i + 1]@,
            ) by {
                assert(crate::digest::digest_lt(keys[i]@, keys[i + 1]@));
            }
            assert forall|i: int| 0 <= i < pairs.len() implies map_of(pairs)[(#[trigger] pairs[i]).0@]
                == pairs[i].1 by {
                if i < front.len() {
                    assert(front[i] == pairs[i]);
                    lemma_ascending_ordered(keys, i, pairs.len() - 1);
                    assert(keys[i] == pairs[i].0);
                    assert(keys[pairs.len() - 1] == last.0);
                }
            }
        }
    }
}

/// The pairs of a listing make up the map again.
pub proof fn lemma_map_of_listing(contracts: Map<Seq<u8>, SubAnchorView>, keys: Seq<Digest>)
    requires
        is_listing(keys, contracts.dom()),
    ensures
        keys_of(pairs_of(contracts, keys)) == keys,
        map_of(pairs_of(contracts, keys)) == contracts,
{
    let pairs = pairs_of(contracts, keys);
    assert(keys_of(pairs) =~= keys);
    lemma_map_of(pairs);
    assert forall|contract: Seq<u8>| map_of(pairs).dom().contains(contract) == contracts.dom().contains(
        contract,
    ) by {
        if map_of(pairs).dom().contains(contract) {
            let i = choose|i: int| 0 <= i < pairs.len() && (#[trigger] pairs[i]).0@ == contract;
            assert(keys[i]@ == contract);
        }
        if contracts.dom().contains(contract) {
            let i = choose|i: int| 0 <= i < keys.len() && #[trigger] keys[i]@ == contract;
            assert(pairs[i].0@ == contract);
        }
    }
    assert forall|contract: Seq<u8>| contracts.dom().contains(contract) implies map_of(pairs)[contract]
        == contracts[contract] by {
        let i = choose|i: int| 0 <= i < keys.len() && #[trigger] keys[i]@ == contract;
        assert(pairs[i].0@ == contract);
        assert(map_of(pairs)[pairs[i].0@] == pairs[i].1);
    }
    assert(map_of(pairs) =~= contracts);
}

/// A contract and its sub-anchor that were written are read back.
pub proof fn lemma_read_pair(pair: Pair, rest: Seq<u8>)
    requires
        pair.1.mmb_proof.siblings.len() <= MAX_DEPTH,
    ensures
        pair_reader()(pair_writer()(pair) + rest) == Some((pair, rest)),
{
    let sub = write_sub_anchor(pair.1) + rest;
    assert(pair_writer()(pair) + rest =~= pair.0@ + sub);
    lemma_read_digest(pair.0, sub);
    lemma_read_sub_anchor(pair.1, rest);
}

/// Pairs that were written are read back.
pub proof fn lemma_read_pairs(pairs: Seq<Pair>, rest: Seq<u8>)
    requires
        forall|i: int| 0 <= i < pairs.len() ==> (#[trigger] pairs[i]).1.mmb_proof.siblings.len() <= MAX_DEPTH,
    ensures
        read_seq(write_seq(pairs, pair_writer()) + rest, pairs.len(), pair_reader()) == Some((pairs, rest)),
{
    assert forall|i: int, after: Seq<u8>| 0 <= i < pairs.len() implies #[trigger] pair_reader()(
        pair_writer()(pairs[i]) + after,
    ) == Some((pairs[i], after)) by {
        lemma_read_pair(pairs[i], after);
    }
    lemma_read_seq(pairs, pair_writer(), pair_reader(), rest);
}

/// The contracts of an anchor that were written are read back.
pub proof fn lemma_read_contracts(anchor: SuperAnchorView, keys: Seq<Digest>, rest: Seq<u8>)
    requires
        anchor_encodable(anchor),
        is_listing(keys, anchor.contracts.dom()),
        keys.len() <= MAX_CONTRACTS,
    ensures
        read_contracts(write_contracts(anchor.contracts, keys) + rest) == Some(
            (pairs_of(anchor.contracts, keys), rest),
        ),
{
    let pairs = pairs_of(anchor.contracts, keys);
    let list = write_seq(pairs, pair_writer()) + rest;
    assert(write_contracts(anchor.contracts, keys) + rest =~= le16(keys.len() as u16) + list);
    lemma_read16(keys.len() as u16, list);
    assert forall|i: int| 0 <= i < pairs.len() implies (#[trigger] pairs[i]).1.mmb_proof.siblings.len()
        <= MAX_DEPTH by {
        assert(anchor.contracts.dom().contains(keys[i]@));
    }
    lemma_read_pairs(pairs, rest);
}

/// An anchor that was written is read back as it was.
pub proof fn lemma_decoded_encoded(anchor: SuperAnchorView)
    requires
        anchor_encodable(anchor),
    ensures
        decoded(encoded(anchor)) == Some(anchor),
{
    lemma_listing_exists(anchor.contracts.dom());
    let keys = listing_of(anchor.contracts.dom());
    let pairs = pairs_of(anchor.contracts, keys);
    let contracts = write_contracts(anchor.contracts, keys);
    let dbc = write_dbc(anchor.dbc_proof) + contracts;
    assert(encoded(anchor) =~= write_block(anchor.mpc_proof) + dbc);
    assert(read_block(encoded(anchor)) == Some((anchor.mpc_proof, dbc))) by {
        lemma_read_block(anchor.mpc_proof, dbc);
    }
    assert(read_dbc(dbc) == Some((anchor.dbc_proof, contracts))) by {
        lemma_read_dbc(anchor.dbc_proof, contracts);
    }
    assert(read_contracts(contracts) == Some((pairs, Seq::<u8>::empty()))) by {
        lemma_read_contracts(anchor, keys, Seq::<u8>::empty());
        assert(contracts + Seq::<u8>::empty() =~= contracts);
    }
    assert(keys_of(pairs) == keys && map_of(pairs) == anchor.contracts) by {
        lemma_map_of_listing(anchor.contracts, keys);
    }
}

impl SuperAnchor {
    /// Writes the anchor as bytes. The encoding is a function of what the
    /// anchor holds: equal anchors give equal bytes. An anchor that cannot be
    /// written, because a length does not fit its field, is refused as
    /// malformed.
    pub fn to_bytes(&self) -> (outcome: Result<Vec<u8>, AnchorError>)
        ensures
            match outcome {
                Ok(bytes) => anchor_encodable(self@) && bytes@ == encoded(self@),
                Err(e) => e == AnchorError::MalformedProof && !anchor_encodable(self@),
            },
    {
        if !is_block_encodable(&self.mpc_proof) || !is_dbc_encodable(&self.dbc_proof) {
            return Err(AnchorError::MalformedProof);
        }
        let keys = self.contracts.keys();
        let ghost view = self@;
        let ghost pairs = pairs_of(view.contracts, keys@);
        proof {
            lemma_listing_unique(keys@, listing_of(view.contracts.dom()), view.contracts.dom());
            assert forall|contract: Seq<u8>| #[trigger] view.contracts.dom().contains(contract) implies contract.len()
                == 32 by {
                let k = choose|k: int| 0 <= k < keys@.len() && #[trigger] keys@[k]@ == contract;
            }
        }
        let mut i: usize = 0;
        while i < keys.len()
            invariant
                view == self@,
                i <= keys@.len(),
                is_listing(keys@, view.contracts.dom()),
                forall|k: int| 0 <= k < i ==> view.contracts[#[trigger] keys@[k]@].mmb_proof.siblings.len() <= MAX_DEPTH,
            decreases keys@.len() - i,
        {
            assert(view.contracts.dom().contains(keys@[i as int]@));
            match self.contracts.get(&ContractId(keys[i])) {
                Some(sub) => {
                    if sub.mmb_proof.siblings.len() > MAX_DEPTH {
                        return Err(AnchorError::MalformedProof);
                    }
                },
                None => {
                    return Err(AnchorError::MalformedProof);
                },
            }
            i += 1;
        }
        proof {
            assert forall|contract: Seq<u8>| #[trigger]
                view.contracts.dom().contains(contract) implies view.contracts[contract].mmb_proof.siblings.len()
                <= MAX_DEPTH by {
                let k = choose|k: int| 0 <= k < keys@.len() && #[trigger] keys@[k]@ == contract;
                assert(view.contracts[keys@[k]@].mmb_proof.siblings.len() <= MAX_DEPTH);
            }
        }
        let mut out: Vec<u8> = Vec::new();
        put_block(&mut out, &self.mpc_proof);
        put_dbc(&mut out, &self.dbc_proof);
        put16(&mut out, keys.len() as u16);
        let ghost head = out@;
        assert(head =~= write_block(view.mpc_proof) + write_dbc(view.dbc_proof) + le16(keys@.len() as u16));
        assert(write_anchor(view, keys@) =~= head + write_seq(pairs, pair_writer()));
        let mut i: usize = 0;
        while i < keys.len()
            invariant
                view == self@,
                anchor_encodable(view),
                pairs == pairs_of(view.contracts, keys@),
                i <= keys@.len(),
                is_listing(keys@, view.contracts.dom()),
                out@ == head + write_seq(pairs.take(i as int), pair_writer()),
            decreases keys@.len() - i,
        {
            assert(view.contracts.dom().contains(keys@[i as int]@));
            proof {
                lemma_write_seq_push(pairs.take(i as int), pairs[i as int], pair_writer());
                assert(pairs.take(i + 1) =~= pairs.take(i as int).push(pairs[i as int]));
            }
            match self.contracts.get(&ContractId(keys[i])) {
                Some(sub) => {
                    let ghost before = out@;
                    put_digest(&mut out, &keys[i]);
                    put_sub_anchor(&mut out, sub);
                    assert(out@ =~= before + pair_writer()(pairs[i as int]));
                },
                None => {
                    return Err(AnchorError::MalformedProof);
                },
            }
            i += 1;
        }
        assert(pairs.take(keys@.len() as int) =~= pairs);
        Ok(out)
    }

    /// Reads an anchor from bytes. Nothing but the encoding of an anchor is
    /// accepted: every part must be there in full, every length within its
    /// bound, the contracts in strictly ascending order, and no byte left over.
    pub fn from_bytes(bytes: &Vec<u8>) -> (outcome: Result<SuperAnchor, AnchorError>)
        ensures
            match outcome {
                Ok(anchor) => decoded(bytes@) == Some(anchor@),
                Err(e) => e == AnchorError::MalformedProof && decoded(bytes@).is_none(),
            },
    {
        assert(bytes@.skip(0) =~= bytes@);
        let (mpc_proof, after_block) = match get_block(bytes, 0) {
            Some(found) => found,
            None => {
                return Err(AnchorError::MalformedProof);
            },
        };
        let (dbc_proof, after_dbc) = match get_dbc(bytes, after_block) {
            Some(found) => found,
            None => {
                return Err(AnchorError::MalformedProof);
            },
        };
        let (count, start) = match get16(bytes, after_dbc) {
            Some(found) => found,
            None => {
                return Err(AnchorError::MalformedProof);
            },
        };
        let ghost whole = read_seq(bytes@.skip(start as int), count as nat, pair_reader());
        let ghost mut done: Seq<Pair> = Seq::empty();
        let mut contracts = ContractMap::new();
        let mut keys: Vec<Digest> = Vec::new();
        let mut here: usize = start;
        let mut i: u16 = 0;
        proof {
            lemma_resumes_start(bytes@.skip(start as int), count as nat, pair_reader());
            assert(keys@ =~= keys_of(done));
            assert(contracts@ =~= map_of(done));
        }
        while i < count
            invariant
                i <= count,
                here <= bytes@.len(),
                done.len() == i,
                keys@ == keys_of(done),
                contracts@ == map_of(done),
                whole.is_none() ==> decoded(bytes@).is_none(),
                resumes(whole, done, bytes@.skip(here as int), (count - i) as nat, pair_reader()),
            decreases count - i,
        {
            proof {
                lemma_resumes_step(whole, done, bytes@.skip(here as int), (count - i) as nat, pair_reader());
                lemma_map_of(done);
            }
            let (key, after_key) = match get_digest(bytes, here) {
                Some(found) => found,
                None => {
                    return Err(AnchorError::MalformedProof);
                },
            };
            let (sub, next) = match get_sub_anchor(bytes, after_key) {
                Some(found) => found,
                None => {
                    return Err(AnchorError::MalformedProof);
                },
            };
            let ghost pair: Pair = (key, sub@);
            proof {
                assert(done.push(pair).drop_last() =~= done);
                assert(keys@.push(key) =~= keys_of(done.push(pair)));
            }
            match contracts.insert(ContractId(key), sub) {
                Ok(()) => {},
                Err(_) => {
                    return Err(AnchorError::MalformedProof);
                },
            }
            keys.push(key);
            proof {
                done = done.push(pair);
            }
            here = next;
            i += 1;
        }
        proof {
            lemma_resumes_end(whole, done, bytes@.skip(here as int), pair_reader());
        }
        if here != bytes.len() || !is_strictly_ascending(&keys) {
            return Err(AnchorError::MalformedProof);
        }
        Ok(SuperAnchor { mpc_proof, dbc_proof, contracts })
    }
}

} // verus!
