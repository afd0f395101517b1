use amplify::num::u5;
use amplify::ByteArray;
use commit_verify::mpc::{MerkleTree, Message, MessageMap, Method, MultiSource, ProtocolId};
use commit_verify::{CommitId, TryCommitVerify};
use rgb_anchor::mpc::{convolve, position_of, ContractId, MerkleBlock, MpcEntry};

fn tree_of(ids: &[[u8; 32]], depth: u8, entropy: u64) -> MerkleTree {
    let mut messages = MessageMap::default();
    for (n, id) in ids.iter().enumerate() {
        messages
            .insert(ProtocolId::from(*id), Message::from([n as u8 + 1; 32]))
            .unwrap();
    }
    let source = MultiSource {
        method: Method::Sha256t,
        min_depth: u5::with(depth),
        messages,
        static_entropy: Some(entropy),
    };
    MerkleTree::try_commit(&source).unwrap()
}

fn block_of(ids: &[[u8; 32]], depth: u8, entropy: u64) -> MerkleBlock {
    let tree = tree_of(ids, depth, entropy);
    let root = tree.commit_id().to_byte_array();
    let depth = tree.depth().to_u8();
    let cofactor = tree.cofactor();
    let mut found: Vec<(u32, MpcEntry)> = Vec::new();
    for (n, id) in ids.iter().enumerate() {
        let proof = tree_of(ids, depth, entropy)
            .into_proofs()
            .find(|(pid, _)| pid.to_byte_array() == *id)
            .unwrap()
            .1;
        let path = proof.as_path().iter().map(|h| h.to_byte_array()).collect();
        found.push((
            proof.pos(),
            MpcEntry { contract: ContractId(*id), message: [n as u8 + 1; 32], path },
        ));
    }
    found.sort_by_key(|(pos, _)| *pos);
    MerkleBlock { depth, cofactor, root, entries: found.into_iter().map(|(_, e)| e).collect() }
}

#[test]
fn convolve_agrees_with_the_tree_commitment() {
    let ids = [[1u8; 32], [2u8; 32], [0xA7u8; 32], [0x55u8; 32]];
    let tree = tree_of(&ids, 3, 42);
    let commitment = tree.commit_id().to_byte_array();
    let mut seen = 0;
    for (pid, proof) in tree.into_proofs() {
        let n = ids.iter().position(|id| *id == pid.to_byte_array()).unwrap();
        let path: Vec<[u8; 32]> = proof.as_path().iter().map(|h| h.to_byte_array()).collect();
        let mine = convolve(&ContractId(ids[n]), &[n as u8 + 1; 32], proof.cofactor(), &path);
        assert_eq!(mine, Some(commitment));
        let theirs = proof
            .convolve(pid, Message::from([n as u8 + 1; 32]))
            .unwrap()
            .to_byte_array();
        assert_eq!(mine, Some(theirs));
        seen += 1;
    }
    assert_eq!(seen, 4);
}

#[test]
fn convolve_agrees_on_a_deeper_tree_with_cofactor() {
    let mut ids = Vec::new();
    for n in 0..40u8 {
        let mut id = [n; 32];
        id[0] = n.wrapping_mul(37);
        id[31] = 0xF0 | (n & 7);
        ids.push(id);
    }
    let tree = tree_of(&ids, 3, 7);
    let commitment = tree.commit_id().to_byte_array();
    for (pid, proof) in tree.into_proofs() {
        let n = ids.iter().position(|id| *id == pid.to_byte_array()).unwrap();
        let path: Vec<[u8; 32]> = proof.as_path().iter().map(|h| h.to_byte_array()).collect();
        let mine = convolve(&ContractId(ids[n]), &[n as u8 + 1; 32], proof.cofactor(), &path);
        assert_eq!(mine, Some(commitment));
    }
}

#[test]
fn convolve_differs_for_another_message() {
    let ids = [[1u8; 32], [2u8; 32]];
    let tree = tree_of(&ids, 3, 1);
    let commitment = tree.commit_id().to_byte_array();
    let (pid, proof) = tree.into_proofs().next().unwrap();
    let path: Vec<[u8; 32]> = proof.as_path().iter().map(|h| h.to_byte_array()).collect();
    let mine = convolve(&ContractId(pid.to_byte_array()), &[0xEE; 32], proof.cofactor(), &path);
    assert!(mine.is_some());
    assert_ne!(mine, Some(commitment));
}

#[test]
fn convolve_rejects_a_path_longer_than_the_deepest_tree() {
    let path = vec![[0u8; 32]; 32];
    assert_eq!(convolve(&ContractId([1; 32]), &[2; 32], 0, &path), None);
    let path = vec![[0u8; 32]; 31];
    assert!(convolve(&ContractId([1; 32]), &[2; 32], 0, &path).is_some());
}

#[test]
fn convolve_of_an_empty_path_commits_to_the_leaf() {
    let a = convolve(&ContractId([1; 32]), &[2; 32], 0, &Vec::new()).unwrap();
    let b = convolve(&ContractId([1; 32]), &[3; 32], 0, &Vec::new()).unwrap();
    assert_ne!(a, b);
    assert_ne!(a, [2; 32]);
}

#[test]
fn position_is_the_identifier_modulo_the_slots() {
    let mut id = [0u8; 32];
    id[0] = 13;
    assert_eq!(position_of(&ContractId(id), 0, 8), 5);
    assert_eq!(position_of(&ContractId(id), 1, 8), 6);
    assert_eq!(position_of(&ContractId(id), 8, 8), 0);
    assert_eq!(position_of(&ContractId(id), 9, 8), 0);
    id[1] = 1;
    assert_eq!(position_of(&ContractId(id), 0, 16), 13);
    assert_eq!(position_of(&ContractId(id), 3, 16), 269 % 13);
    // 2^256 - 1 is divisible by 3, 5, 17 and 257
    assert_eq!(position_of(&ContractId([0xFF; 32]), 1, 4), 0);
    assert_eq!(position_of(&ContractId([0xFF; 32]), 3, 8), 0);
    assert_eq!(position_of(&ContractId([0xFF; 32]), 1, 8), 1);
    assert_eq!(position_of(&ContractId([0xFF; 32]), 0, 1), 0);
}

#[test]
fn block_verifies_each_revealed_contract() {
    let ids = [[1u8; 32], [2u8; 32], [0xA7u8; 32]];
    let block = block_of(&ids, 3, 9);
    assert!(block.is_well_formed());
    for (n, id) in ids.iter().enumerate() {
        assert!(block.verify(&ContractId(*id), &[n as u8 + 1; 32], &block.root));
        assert!(!block.verify(&ContractId(*id), &[0x77; 32], &block.root));
        assert!(!block.verify(&ContractId(*id), &[n as u8 + 1; 32], &[0; 32]));
    }
    assert!(!block.verify(&ContractId([9; 32]), &[1; 32], &block.root));
    assert_eq!(block.find(&ContractId([9; 32])), None);
    assert!(block.find(&ContractId([2; 32])).is_some());
}

#[test]
fn block_with_a_corrupted_path_fails() {
    let ids = [[1u8; 32], [2u8; 32]];
    let mut block = block_of(&ids, 3, 9);
    let id = block.entries[0].contract;
    let message = block.entries[0].message;
    assert!(block.verify(&id, &message, &block.root));
    block.entries[0].path[1][4] ^= 1;
    assert!(!block.verify(&id, &message, &block.root));
}

#[test]
fn malformed_blocks_verify_nothing() {
    let ids = [[1u8; 32], [2u8; 32]];
    let good = block_of(&ids, 3, 9);
    let id = good.entries[0].contract;
    let message = good.entries[0].message;

    let mut swapped = good.clone();
    swapped.entries.swap(0, 1);
    assert!(!swapped.is_well_formed());
    assert!(!swapped.verify(&id, &message, &good.root));

    let mut twice = good.clone();
    twice.entries.push(good.entries[1].clone());
    assert!(!twice.is_well_formed());
    assert!(!twice.verify(&id, &message, &good.root));

    let mut short = good.clone();
    short.entries[1].path.pop();
    assert!(!short.is_well_formed());
    assert!(!short.verify(&id, &message, &good.root));

    let mut deep = good.clone();
    deep.depth = 32;
    assert!(!deep.is_well_formed());

    let empty = MerkleBlock { depth: 0, cofactor: 0, root: [0; 32], entries: Vec::new() };
    assert!(empty.is_well_formed());
    assert!(!empty.verify(&id, &message, &empty.root));
}
