use std::str::FromStr;

use bc::{InternalPk, ScriptPubkey};
use commit_verify::mpc::Commitment;
use commit_verify::ConvolveCommit;
use dbc::tapret::{TapretPathProof, TapretProof as OutsideProof};
use rgb_anchor::dbc::{bytes_eq, script_is, Carrier, DbcProof, TapretProof, Tx, SCHEME_OPRET, SCHEME_TAPRET};
use rgb_anchor::error::AnchorError;
use strict_encoding::StrictSerialize;

fn outside_proof(nonce: u8) -> OutsideProof {
    OutsideProof {
        path_proof: TapretPathProof::root(nonce),
        internal_pk: InternalPk::from_str(
            "c5f93479093e2b8f724a79844cc10928dd44e9a390b539843fb83fbf842723f3",
        )
        .unwrap(),
    }
}

fn encoded(proof: &OutsideProof) -> Vec<u8> {
    proof.to_strict_serialized::<0xFFFF>().unwrap().release()
}

fn tapret_script(proof: &OutsideProof, root: [u8; 32]) -> Vec<u8> {
    let (key, _) = proof
        .internal_pk
        .convolve_commit(&proof.path_proof, &Commitment::from(root))
        .unwrap();
    ScriptPubkey::p2tr_tweaked(key).to_vec()
}

fn p2wpkh() -> Vec<u8> {
    let mut script = vec![0x00u8, 0x14];
    script.extend([7u8; 20]);
    script
}

fn op_return(root: [u8; 32]) -> Vec<u8> {
    let mut script = vec![0x6au8, 0x20];
    script.extend(root);
    script
}

#[test]
fn opret_script_is_the_opcode_a_push_and_the_root() {
    let root = [0x5Au8; 32];
    let derived = DbcProof::Opret.derive_script(&root).unwrap();
    assert_eq!(derived, op_return(root));
    assert_eq!(derived, ScriptPubkey::op_return(&root).to_vec());
    assert_eq!(derived.len(), 34);
}

#[test]
fn opret_commits_in_the_first_op_return_output() {
    let root = [0x5Au8; 32];
    let tx = Tx { outputs: vec![p2wpkh(), op_return(root), op_return([1; 32])] };
    assert!(DbcProof::Opret.verify(&root, &tx));
    assert_eq!(DbcProof::Opret.check(&root, &tx), Ok(()));
    assert!(!DbcProof::Opret.verify(&[1; 32], &tx));
    assert_eq!(DbcProof::Opret.check(&[1; 32], &tx), Err(AnchorError::TransactionMismatch));
    assert_eq!(tx.first_carrier(Carrier::OpReturn), Some(1));
    assert_eq!(tx.first_carrier(Carrier::Taproot), None);
}

#[test]
fn opret_fails_without_a_matching_output() {
    let root = [0x5Au8; 32];
    assert!(!DbcProof::Opret.verify(&root, &Tx { outputs: Vec::new() }));
    assert!(!DbcProof::Opret.verify(&root, &Tx { outputs: vec![p2wpkh()] }));
    assert!(!DbcProof::Opret.verify(&root, &Tx { outputs: vec![vec![0x6a], op_return(root)] }));
    let mut long = op_return(root);
    long.push(0);
    assert!(!DbcProof::Opret.verify(&root, &Tx { outputs: vec![long] }));
    let mut short = op_return(root);
    short.pop();
    assert!(!DbcProof::Opret.verify(&root, &Tx { outputs: vec![short] }));
}

#[test]
fn tapret_commits_in_the_first_taproot_output() {
    let root = [8u8; 32];
    let proof = outside_proof(0);
    let script = tapret_script(&proof, root);
    assert!(script_is(&script, Carrier::Taproot));
    let mine = DbcProof::Tapret(TapretProof { encoded: encoded(&proof) });
    assert_eq!(mine.derive_script(&root), Some(script.clone()));
    let tx = Tx { outputs: vec![op_return(root), script.clone(), tapret_script(&proof, [9; 32])] };
    assert!(mine.verify(&root, &tx));
    assert!(!mine.verify(&[9; 32], &tx));
    assert_eq!(mine.check(&[9; 32], &tx), Err(AnchorError::TransactionMismatch));
    assert_eq!(tx.first_carrier(Carrier::Taproot), Some(1));
    let other = DbcProof::Tapret(TapretProof { encoded: encoded(&outside_proof(1)) });
    assert!(!other.verify(&root, &tx));
    assert!(!mine.verify(&root, &Tx { outputs: vec![op_return(root)] }));
}

#[test]
fn tapret_agrees_with_the_outside_verification() {
    let root = [8u8; 32];
    let proof = outside_proof(3);
    let script = tapret_script(&proof, root);
    let tx = bc::Tx {
        version: bc::TxVer::V2,
        inputs: Default::default(),
        outputs: bc::VarIntArray::from_iter_checked([bc::TxOut {
            value: bc::Sats::from(1000u64),
            script_pubkey: ScriptPubkey::from_checked(script.clone()),
        }]),
        lock_time: bc::LockTime::ZERO,
    };
    assert!(proof.verify(&Commitment::from(root), &tx).is_ok());
    assert!(proof.verify(&Commitment::from([9u8; 32]), &tx).is_err());
    let mine = DbcProof::Tapret(TapretProof { encoded: encoded(&proof) });
    let outputs = tx.outputs.iter().map(|o| o.script_pubkey.to_vec()).collect();
    let tx = Tx { outputs };
    assert!(mine.verify(&root, &tx));
    assert!(!mine.verify(&[9u8; 32], &tx));
}

#[test]
fn tapret_proof_that_does_not_decode_commits_to_nothing() {
    let root = [8u8; 32];
    let script = tapret_script(&outside_proof(0), root);
    let tx = Tx { outputs: vec![script] };
    let garbage = DbcProof::Tapret(TapretProof { encoded: vec![1, 2, 3] });
    assert_eq!(garbage.derive_script(&root), None);
    assert_eq!(garbage.check(&root, &tx), Err(AnchorError::TransactionMismatch));
    let mut trailing = encoded(&outside_proof(0));
    trailing.push(0);
    assert_eq!(DbcProof::Tapret(TapretProof { encoded: trailing }).derive_script(&root), None);
    let empty = DbcProof::Tapret(TapretProof { encoded: Vec::new() });
    assert!(!empty.verify(&root, &tx));
    // a well-framed proof whose key is no point of the curve
    let mut off_curve = vec![0u8, 0];
    off_curve.extend([0xFFu8; 32]);
    assert_eq!(encoded(&outside_proof(0)).len(), off_curve.len());
    assert_eq!(DbcProof::Tapret(TapretProof { encoded: off_curve }).derive_script(&root), None);
}

#[test]
fn unknown_scheme_is_rejected() {
    let root = [8u8; 32];
    let tx = Tx { outputs: vec![op_return(root)] };
    let proof = DbcProof::Unknown { scheme: 7, payload: vec![1, 2] };
    assert_eq!(proof.check(&root, &tx), Err(AnchorError::UnsupportedScheme));
    assert!(!proof.verify(&root, &tx));
    assert_eq!(proof.derive_script(&root), None);
    assert_eq!(proof.scheme(), 7);
    assert_eq!(DbcProof::Opret.scheme(), SCHEME_OPRET);
    assert_eq!(DbcProof::Tapret(TapretProof { encoded: Vec::new() }).scheme(), SCHEME_TAPRET);
}

#[test]
fn scripts_are_told_apart_by_their_first_bytes() {
    assert!(script_is(&vec![0x6a], Carrier::OpReturn));
    assert!(script_is(&op_return([0; 32]), Carrier::OpReturn));
    assert!(!script_is(&Vec::new(), Carrier::OpReturn));
    assert!(!script_is(&p2wpkh(), Carrier::OpReturn));
    let mut p2tr = vec![0x51u8, 0x20];
    p2tr.extend([3u8; 32]);
    assert!(script_is(&p2tr, Carrier::Taproot));
    assert!(!script_is(&p2tr, Carrier::OpReturn));
    assert!(!script_is(&p2tr[..33].to_vec(), Carrier::Taproot));
    p2tr[1] = 0x21;
    assert!(!script_is(&p2tr, Carrier::Taproot));
    assert!(bytes_eq(&vec![1, 2], &vec![1, 2]));
    assert!(!bytes_eq(&vec![1, 2], &vec![1, 3]));
    assert!(!bytes_eq(&vec![1, 2], &vec![1]));
    assert!(bytes_eq(&Vec::new(), &Vec::new()));
}
