use amplify::num::u5;
use amplify::ByteArray;
use commit_verify::mpc::{MerkleTree, Message, MessageMap, Method, MultiSource, ProtocolId};
use commit_verify::{CommitId, TryCommitVerify};
use rgb_anchor::anchor::SuperAnchor;
use rgb_anchor::contracts::{ContractMap, FallbackProof, SubAnchor, MAX_CONTRACTS};
use rgb_anchor::dbc::{DbcProof, Tx};
use rgb_anchor::error::AnchorError;
use rgb_anchor::mmb::BundleProof;
use rgb_anchor::mpc::{ContractId, MerkleBlock, MpcEntry};

const C1: [u8; 32] = [0x11; 32];
const C2: [u8; 32] = [0x22; 32];
const B1: [u8; 32] = [1; 32];
const B2: [u8; 32] = [2; 32];
const B3: [u8; 32] = [3; 32];

fn sub1() -> SubAnchor {
    SubAnchor::new(BundleProof { position: 1, siblings: vec![[0xA0; 32]] })
}

fn sub2() -> SubAnchor {
    SubAnchor::new(BundleProof { position: 2, siblings: vec![[0xB0; 32], [0xB1; 32]] })
}

fn block(leaves: &[([u8; 32], [u8; 32])]) -> MerkleBlock {
    let source = || {
        let mut messages = MessageMap::default();
        for (id, leaf) in leaves {
            messages.insert(ProtocolId::from(*id), Message::from(*leaf)).unwrap();
        }
        MultiSource {
            method: Method::Sha256t,
            min_depth: u5::with(3),
            messages,
            static_entropy: Some(0xC0FFEE),
        }
    };
    let tree = MerkleTree::try_commit(&source()).unwrap();
    let root = tree.commit_id().to_byte_array();
    let (depth, cofactor) = (tree.depth().to_u8(), tree.cofactor());
    let mut found: Vec<(u32, MpcEntry)> = tree
        .into_proofs()
        .map(|(pid, proof)| {
            let id = pid.to_byte_array();
            let message = leaves.iter().find(|(c, _)| *c == id).unwrap().1;
            let path = proof.as_path().iter().map(|h| h.to_byte_array()).collect();
            (proof.pos(), MpcEntry { contract: ContractId(id), message, path })
        })
        .collect();
    found.sort_by_key(|(pos, _)| *pos);
    MerkleBlock { depth, cofactor, root, entries: found.into_iter().map(|(_, e)| e).collect() }
}

fn op_return(root: [u8; 32]) -> Vec<u8> {
    let mut script = vec![0x6au8, 0x20];
    script.extend(root);
    script
}

fn anchor() -> SuperAnchor {
    let leaf1 = sub1().commitment(&vec![B1, B2]).unwrap();
    let leaf2 = sub2().commitment(&vec![B3]).unwrap();
    let mut anchor = SuperAnchor::new(block(&[(C1, leaf1), (C2, leaf2)]), DbcProof::Opret);
    anchor.insert(ContractId(C1), sub1()).unwrap();
    anchor.insert(ContractId(C2), sub2()).unwrap();
    anchor
}

fn transaction(anchor: &SuperAnchor) -> Tx {
    Tx { outputs: vec![vec![0x00, 0x14, 9, 9], op_return(anchor.root())] }
}

#[test]
fn two_contracts_in_one_transaction() {
    let anchor = anchor();
    let t = transaction(&anchor);
    let claim = anchor.verify(&ContractId(C1), &vec![B1, B2], &t).unwrap();
    assert_eq!(claim.contract_id, ContractId(C1));
    assert_eq!(claim.commitment, sub1().commitment(&vec![B1, B2]).unwrap());
    assert_eq!(claim.root, anchor.root());
    assert!(anchor.verify(&ContractId(C2), &vec![B3], &t).is_ok());
    assert_eq!(anchor.len(), 2);
}

#[test]
fn omitted_bundle_is_a_bundle_mismatch() {
    let anchor = anchor();
    let t = transaction(&anchor);
    assert_eq!(anchor.verify(&ContractId(C1), &vec![B1], &t).unwrap_err(), AnchorError::BundleMismatch);
    assert_eq!(anchor.verify(&ContractId(C1), &vec![B1, B3], &t).unwrap_err(), AnchorError::BundleMismatch);
    assert_eq!(anchor.verify(&ContractId(C1), &vec![B3], &t).unwrap_err(), AnchorError::BundleMismatch);
}

#[test]
fn another_transaction_is_a_transaction_mismatch() {
    let anchor = anchor();
    let other = Tx { outputs: vec![op_return([0x99; 32])] };
    assert_eq!(
        anchor.verify(&ContractId(C1), &vec![B1, B2], &other).unwrap_err(),
        AnchorError::TransactionMismatch
    );
    assert_eq!(anchor.verify_transaction(&other), Err(AnchorError::TransactionMismatch));
    assert_eq!(anchor.verify_transaction(&transaction(&anchor)), Ok(()));
    let none = Tx { outputs: Vec::new() };
    assert_eq!(
        anchor.verify(&ContractId(C1), &vec![B1, B2], &none).unwrap_err(),
        AnchorError::TransactionMismatch
    );
}

#[test]
fn contract_outside_the_anchor_is_unknown() {
    let anchor = anchor();
    let t = transaction(&anchor);
    assert_eq!(anchor.verify(&ContractId([0x33; 32]), &vec![B1], &t).unwrap_err(), AnchorError::UnknownContract);
    assert!(anchor.get(&ContractId([0x33; 32])).is_none());
    assert!(anchor.get(&ContractId(C1)).is_some());
}

#[test]
fn corrupted_block_is_a_commitment_mismatch() {
    let mut anchor = anchor();
    let t = transaction(&anchor);
    let index = anchor.mpc_proof.find(&ContractId(C1)).unwrap();
    anchor.mpc_proof.entries[index].path[0][0] ^= 0x80;
    assert_eq!(
        anchor.verify(&ContractId(C1), &vec![B1, B2], &t).unwrap_err(),
        AnchorError::CommitmentMismatch
    );
    let mut anchor = self::anchor();
    anchor.mpc_proof.cofactor ^= 0x4000;
    let outcome = anchor.verify(&ContractId(C1), &vec![B1, B2], &t).unwrap_err();
    assert!(outcome == AnchorError::CommitmentMismatch || outcome == AnchorError::MalformedProof);
}

#[test]
fn corrupted_root_fails_in_the_block_layer() {
    let mut anchor = anchor();
    let t = transaction(&anchor);
    anchor.mpc_proof.root[5] ^= 1;
    assert_eq!(
        anchor.verify(&ContractId(C1), &vec![B1, B2], &t).unwrap_err(),
        AnchorError::CommitmentMismatch
    );
}

#[test]
fn corrupted_sub_anchor_is_a_bundle_mismatch() {
    let leaf1 = sub1().commitment(&vec![B1, B2]).unwrap();
    let leaf2 = sub2().commitment(&vec![B3]).unwrap();
    let mut anchor = SuperAnchor::new(block(&[(C1, leaf1), (C2, leaf2)]), DbcProof::Opret);
    let mut bent = sub1();
    bent.mmb_proof.siblings[0][31] ^= 1;
    anchor.insert(ContractId(C1), bent).unwrap();
    let t = transaction(&anchor);
    assert_eq!(anchor.verify(&ContractId(C1), &vec![B1, B2], &t).unwrap_err(), AnchorError::BundleMismatch);
    let mut moved = sub1();
    moved.mmb_proof.position = 0;
    anchor.insert(ContractId(C1), moved).unwrap();
    assert_eq!(anchor.verify(&ContractId(C1), &vec![B1, B2], &t).unwrap_err(), AnchorError::BundleMismatch);
}

#[test]
fn swapped_sub_anchors_fail_for_both_contracts() {
    let leaf1 = sub1().commitment(&vec![B1, B2]).unwrap();
    let leaf2 = sub2().commitment(&vec![B3]).unwrap();
    let mut anchor = SuperAnchor::new(block(&[(C1, leaf1), (C2, leaf2)]), DbcProof::Opret);
    anchor.insert(ContractId(C1), sub2()).unwrap();
    anchor.insert(ContractId(C2), sub1()).unwrap();
    let t = transaction(&anchor);
    assert_eq!(anchor.verify(&ContractId(C1), &vec![B1, B2], &t).unwrap_err(), AnchorError::BundleMismatch);
    assert_eq!(anchor.verify(&ContractId(C2), &vec![B3], &t).unwrap_err(), AnchorError::BundleMismatch);
    assert_eq!(anchor.verify(&ContractId(C1), &vec![B3], &t).unwrap_err(), AnchorError::BundleMismatch);
    assert_eq!(anchor.verify(&ContractId(C2), &vec![B1, B2], &t).unwrap_err(), AnchorError::BundleMismatch);
}

#[test]
fn malformed_input_is_told_before_any_mismatch() {
    let mut anchor = anchor();
    let other = Tx { outputs: Vec::new() };
    assert_eq!(anchor.verify(&ContractId(C1), &vec![B2, B1], &other).unwrap_err(), AnchorError::MalformedProof);
    assert_eq!(anchor.verify(&ContractId(C1), &vec![B1, B1], &other).unwrap_err(), AnchorError::MalformedProof);
    let mut outside = sub1();
    outside.mmb_proof.position = 2;
    anchor.insert(ContractId(C1), outside).unwrap();
    assert_eq!(anchor.verify(&ContractId(C1), &vec![B1, B2], &other).unwrap_err(), AnchorError::MalformedProof);
    let mut anchor = self::anchor();
    anchor.mpc_proof.entries.swap(0, 1);
    assert_eq!(anchor.verify(&ContractId(C1), &vec![B1, B2], &other).unwrap_err(), AnchorError::MalformedProof);
}

#[test]
fn unsupported_schemes_are_rejected() {
    let mut anchor = anchor();
    let t = transaction(&anchor);
    anchor.dbc_proof = DbcProof::Unknown { scheme: 9, payload: Vec::new() };
    assert_eq!(anchor.verify(&ContractId(C1), &vec![B1, B2], &t).unwrap_err(), AnchorError::UnsupportedScheme);
    assert_eq!(anchor.verify_transaction(&t), Err(AnchorError::UnsupportedScheme));
    let mut anchor = self::anchor();
    let mut with_fallback = sub1();
    with_fallback.fallback_proof = Some(FallbackProof { scheme: 1 });
    assert_eq!(with_fallback.commitment(&vec![B1, B2]), Err(AnchorError::UnsupportedScheme));
    assert!(!with_fallback.verify(&vec![B1, B2], &sub1().commitment(&vec![B1, B2]).unwrap()));
    anchor.insert(ContractId(C1), with_fallback).unwrap();
    assert_eq!(anchor.verify(&ContractId(C1), &vec![B1, B2], &t).unwrap_err(), AnchorError::UnsupportedScheme);
    assert!(anchor.verify(&ContractId(C2), &vec![B3], &t).is_ok());
}

#[test]
fn empty_fallback_slot_has_no_effect() {
    let plain = sub1();
    assert!(plain.fallback_proof.is_none());
    let root = plain.mmb_proof.commitment(&vec![B1, B2]).unwrap();
    assert_eq!(plain.commitment(&vec![B1, B2]), Ok(root));
    assert!(plain.verify(&vec![B1, B2], &root));
    assert!(!plain.verify(&vec![B1], &root));
    assert_eq!(plain.commitment(&vec![B2, B1]), Err(AnchorError::MalformedProof));
}

#[test]
fn anchor_without_contracts_has_a_root() {
    let empty = MerkleBlock { depth: 3, cofactor: 0, root: [0x42; 32], entries: Vec::new() };
    let anchor = SuperAnchor::new(empty, DbcProof::Opret);
    assert_eq!(anchor.len(), 0);
    assert_eq!(anchor.root(), [0x42; 32]);
    let t = Tx { outputs: vec![op_return([0x42; 32])] };
    assert_eq!(anchor.verify_transaction(&t), Ok(()));
    assert_eq!(anchor.verify(&ContractId(C1), &vec![B1], &t).unwrap_err(), AnchorError::UnknownContract);
    assert_eq!(anchor.verify(&ContractId(C1), &Vec::new(), &t).unwrap_err(), AnchorError::UnknownContract);
}

#[test]
fn insert_needs_a_leaf_in_the_block() {
    let mut anchor = anchor();
    assert_eq!(anchor.insert(ContractId([0x33; 32]), sub1()), Err(AnchorError::MalformedProof));
    assert_eq!(anchor.len(), 2);
    assert!(anchor.get(&ContractId([0x33; 32])).is_none());
    assert_eq!(anchor.insert(ContractId(C1), sub2()), Ok(()));
    assert_eq!(anchor.len(), 2);
    assert_eq!(anchor.get(&ContractId(C1)).unwrap().mmb_proof.position, 2);
}

#[test]
fn contract_map_is_bounded() {
    let mut map = ContractMap::new();
    assert_eq!(map.len(), 0);
    for n in 0..MAX_CONTRACTS as u32 {
        let mut id = [0u8; 32];
        id[..4].copy_from_slice(&n.to_le_bytes());
        assert_eq!(map.insert(ContractId(id), sub1()), Ok(()));
    }
    assert_eq!(map.len(), MAX_CONTRACTS);
    assert_eq!(map.insert(ContractId([0xFF; 32]), sub1()), Err(AnchorError::MalformedProof));
    assert_eq!(map.insert(ContractId([0; 32]), sub2()), Err(AnchorError::MalformedProof));
    assert_eq!(map.len(), MAX_CONTRACTS);
    assert!(map.get(&ContractId([0xFF; 32])).is_none());
    assert_eq!(map.get(&ContractId([0; 32])).unwrap().mmb_proof.position, 1);
}

#[test]
fn structure_is_checked_without_hashing() {
    let anchor = anchor();
    assert!(anchor.is_well_formed());
    assert!(anchor.mpc_proof.is_consistent());
    let mut bent = self::anchor();
    bent.mpc_proof.entries[0].path[0][0] ^= 1;
    assert!(bent.is_well_formed());
    assert!(!bent.mpc_proof.is_consistent());
    let mut outside = self::anchor();
    let mut sub = sub1();
    sub.mmb_proof.position = 2;
    outside.insert(ContractId(C1), sub).unwrap();
    assert!(!outside.is_well_formed());
    let mut unrevealed = self::anchor();
    let index = unrevealed.mpc_proof.find(&ContractId(C2)).unwrap();
    unrevealed.mpc_proof.entries.remove(index);
    assert!(unrevealed.mpc_proof.is_well_formed());
    assert!(!unrevealed.is_well_formed());
    assert_eq!(
        unrevealed.verify(&ContractId(C2), &vec![B3], &transaction(&unrevealed)).unwrap_err(),
        AnchorError::BundleMismatch
    );
    let empty = SuperAnchor::new(
        MerkleBlock { depth: 0, cofactor: 0, root: [0; 32], entries: Vec::new() },
        DbcProof::Opret,
    );
    assert!(empty.is_well_formed());
    assert!(empty.mpc_proof.is_consistent());
}
