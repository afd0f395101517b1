use commit_verify::merkle::MerkleHash;
use commit_verify::{DigestExt, Sha256};
use amplify::ByteArray;
use rgb_anchor::digest::{hash_eq, hash_lt, is_strictly_ascending};
use rgb_anchor::merkle::{fold_path, tree_width};
use rgb_anchor::mmb::{BundleProof, BUNDLE_TAG};

fn leaf_of(refs: &[[u8; 32]]) -> [u8; 32] {
    let mut engine = Sha256::from_tag(BUNDLE_TAG);
    engine.input_raw(&(refs.len() as u16).to_le_bytes());
    for r in refs {
        engine.input_raw(r);
    }
    engine.finish()
}

fn branch(depth: u8, width: u32, left: [u8; 32], right: [u8; 32]) -> [u8; 32] {
    MerkleHash::branches(depth, width, MerkleHash::from(left), MerkleHash::from(right)).to_byte_array()
}

#[test]
fn proof_without_siblings_yields_the_leaf() {
    let proof = BundleProof { position: 0, siblings: Vec::new() };
    let refs = vec![[1u8; 32], [2u8; 32]];
    assert_eq!(proof.commitment(&refs), Some(leaf_of(&refs)));
    assert_ne!(proof.commitment(&refs), Some(refs[0]));
    assert!(proof.verify(&refs, &leaf_of(&refs)));
    assert!(!proof.verify(&refs, &leaf_of(&refs[..1])));
}

#[test]
fn path_is_folded_by_position() {
    let refs = vec![[3u8; 32]];
    let leaf = leaf_of(&refs);
    let (s0, s1, s2) = ([10u8; 32], [11u8; 32], [12u8; 32]);
    // position 5 = 101b: right at the top, left in the middle, right at the bottom
    let n2 = branch(2, 8, s2, leaf);
    let n1 = branch(1, 8, n2, s1);
    let root = branch(0, 8, s0, n1);
    let proof = BundleProof { position: 5, siblings: vec![s0, s1, s2] };
    assert_eq!(proof.commitment(&refs), Some(root));
    assert_eq!(fold_path(&leaf, 5, &vec![s0, s1, s2]), Some(root));
    // position 2 = 010b
    let n2 = branch(2, 8, leaf, s2);
    let n1 = branch(1, 8, s1, n2);
    let root = branch(0, 8, n1, s0);
    assert_eq!(fold_path(&leaf, 2, &vec![s0, s1, s2]), Some(root));
    assert!(BundleProof { position: 2, siblings: vec![s0, s1, s2] }.verify(&refs, &root));
    assert!(!BundleProof { position: 3, siblings: vec![s0, s1, s2] }.verify(&refs, &root));
}

#[test]
fn position_outside_the_tree_is_malformed() {
    let refs = vec![[3u8; 32]];
    let inside = BundleProof { position: 3, siblings: vec![[0u8; 32]; 2] };
    assert!(inside.is_well_formed());
    assert!(inside.commitment(&refs).is_some());
    let outside = BundleProof { position: 4, siblings: vec![[0u8; 32]; 2] };
    assert!(!outside.is_well_formed());
    assert_eq!(outside.commitment(&refs), None);
    assert!(!BundleProof { position: 1, siblings: Vec::new() }.is_well_formed());
    let long = BundleProof { position: 0, siblings: vec![[0u8; 32]; 32] };
    assert!(!long.is_well_formed());
    assert_eq!(long.commitment(&refs), None);
    let deepest = BundleProof { position: u32::MAX >> 1, siblings: vec![[0u8; 32]; 31] };
    assert!(deepest.is_well_formed());
    assert!(deepest.commitment(&refs).is_some());
    assert!(!BundleProof { position: 1 << 31, siblings: vec![[0u8; 32]; 31] }.is_well_formed());
}

#[test]
fn bundle_references_must_list_a_set() {
    let proof = BundleProof { position: 0, siblings: Vec::new() };
    assert!(proof.commitment(&Vec::new()).is_some());
    assert_eq!(proof.commitment(&vec![[2u8; 32], [1u8; 32]]), None);
    assert_eq!(proof.commitment(&vec![[1u8; 32], [1u8; 32]]), None);
    assert!(!proof.verify(&vec![[1u8; 32], [1u8; 32]], &[0; 32]));
    let mut many = Vec::new();
    for n in 0..65536u32 {
        let mut r = [0u8; 32];
        r[..4].copy_from_slice(&n.to_be_bytes());
        many.push(r);
    }
    assert_eq!(proof.commitment(&many), None);
    many.pop();
    assert_eq!(proof.commitment(&many), Some(leaf_of(&many)));
    many.truncate(258);
    assert_eq!(proof.commitment(&many), Some(leaf_of(&many)));
    assert_eq!(proof.commitment(&Vec::new()), Some(leaf_of(&[])));
}

#[test]
fn digests_are_ordered_byte_by_byte() {
    let mut a = [0u8; 32];
    let mut b = [0u8; 32];
    assert!(!hash_lt(&a, &b));
    assert!(hash_eq(&a, &b));
    b[31] = 1;
    assert!(hash_lt(&a, &b));
    assert!(!hash_lt(&b, &a));
    assert!(!hash_eq(&a, &b));
    a[0] = 1;
    assert!(hash_lt(&b, &a));
    assert!(is_strictly_ascending(&vec![b, a]));
    assert!(!is_strictly_ascending(&vec![a, b]));
    assert!(!is_strictly_ascending(&vec![b, a, a]));
    assert!(is_strictly_ascending(&vec![a]));
    assert!(is_strictly_ascending(&Vec::new()));
}

#[test]
fn width_doubles_with_each_level() {
    assert_eq!(tree_width(0), Some(1));
    assert_eq!(tree_width(1), Some(2));
    assert_eq!(tree_width(5), Some(32));
    assert_eq!(tree_width(31), Some(1 << 31));
    assert_eq!(tree_width(32), None);
}
