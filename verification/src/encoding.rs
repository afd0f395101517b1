//! The byte encoding of anchors. It is deterministic: a value has one
//! encoding, and reading accepts nothing but that encoding. Lengths come
//! before what they count and are checked against their bounds before anything
//! that follows is read.

pub mod anchor;
pub mod block;

use vstd::prelude::*;
use crate::contracts::{FallbackProof, SubAnchor, SubAnchorView};
use crate::digest::Digest;
use crate::merkle::MAX_DEPTH;
use crate::mmb::{BundleProof, BundleProofView};
use crate::wire::{
    get32, get8, get_digest, le32, lemma_read32, lemma_read8, lemma_read_digest, lemma_read_seq,
    lemma_resumes_end, lemma_resumes_start, lemma_resumes_step, lemma_write_seq_push, put32, put_digest,
    read32, read8, read_at, read_digest, read_seq, resumes, write_seq,
};

verus! {

/// What was read, with the value taken by its view.
pub open spec fn viewed<T: View>(got: Option<(T, usize)>) -> Option<(T::V, usize)> {
    match got {
        Some((value, next)) => Some((value@, next)),
        None => None,
    }
}

/// How a digest is written: as its bytes.
pub open spec fn digest_writer() -> spec_fn(Digest) -> Seq<u8> {
    |d: Digest| d@
}

/// How a digest is read.
pub open spec fn digest_reader() -> spec_fn(Seq<u8>) -> Option<(Digest, Seq<u8>)> {
    |bytes: Seq<u8>| read_digest(bytes)
}

/// A path of siblings: their number in one byte, then the digests.
pub open spec fn write_path(path: Seq<Digest>) -> Seq<u8> {
    seq![path.len() as u8] + write_seq(path, digest_writer())
}

/// Reads a path. A path longer than the deepest tree is refused before any
/// digest is read.
pub open spec fn read_path(bytes: Seq<u8>) -> Option<(Seq<Digest>, Seq<u8>)> {
    match read8(bytes) {
        Some((count, rest)) => if count <= MAX_DEPTH {
            read_seq(rest, count as nat, digest_reader())
        } else {
            None
        },
        None => None,
    }
}

/// A bundle proof: the position in four bytes, then the path.
pub open spec fn write_bundle_proof(proof: BundleProofView) -> Seq<u8> {
    le32(proof.position) + write_path(proof.siblings)
}

/// Reads a bundle proof.
pub open spec fn read_bundle_proof(bytes: Seq<u8>) -> Option<(BundleProofView, Seq<u8>)> {
    match read32(bytes) {
        Some((position, rest)) => match read_path(rest) {
            Some((siblings, end)) => Some((BundleProofView { position, siblings }, end)),
            None => None,
        },
        None => None,
    }
}

/// The fallback slot: one zero byte where it is empty, a one and the scheme
/// where it holds a proof.
pub open spec fn write_fallback(slot: Option<FallbackProof>) -> Seq<u8> {
    match slot {
        None => seq![0u8],
        Some(proof) => seq![1u8, proof.scheme],
    }
}

/// Reads the fallback slot.
pub open spec fn read_fallback(bytes: Seq<u8>) -> Option<(Option<FallbackProof>, Seq<u8>)> {
    match read8(bytes) {
        Some((tag, rest)) => if tag == 0 {
            Some((None, rest))
        } else if tag == 1 {
            match read8(rest) {
                Some((scheme, end)) => Some((Some(FallbackProof { scheme }), end)),
                None => None,
            }
        } else {
            None
        },
        None => None,
    }
}

/// A sub-anchor: the bundle proof, then the fallback slot.
pub open spec fn write_sub_anchor(anchor: SubAnchorView) -> Seq<u8> {
    write_bundle_proof(anchor.mmb_proof) + write_fallback(anchor.fallback_proof)
}

/// Reads a sub-anchor.
pub open spec fn read_sub_anchor(bytes: Seq<u8>) -> Option<(SubAnchorView, Seq<u8>)> {
    match read_bundle_proof(bytes) {
        Some((mmb_proof, rest)) => match read_fallback(rest) {
            Some((fallback_proof, end)) => Some((SubAnchorView { mmb_proof, fallback_proof }, end)),
            None => None,
        },
        None => None,
    }
}

/// A path that was written is read back.
pub proof fn lemma_read_path(path: Seq<Digest>, rest: Seq<u8>)
    requires
        path.len() <= MAX_DEPTH,
    ensures
        read_path(write_path(path) + rest) == Some((path, rest)),
{
    let body = write_seq(path, digest_writer()) + rest;
    assert(write_path(path) + rest =~= seq![path.len() as u8] + body);
    lemma_read8(path.len() as u8, body);
    assert forall|i: int, after: Seq<u8>| 0 <= i < path.len() implies #[trigger] digest_reader()(
        digest_writer()(path[i]) + after,
    ) == Some((path[i], after)) by {
        lemma_read_digest(path[i], after);
    }
    lemma_read_seq(path, digest_writer(), digest_reader(), rest);
}

/// A sub-anchor that was written is read back.
pub proof fn lemma_read_sub_anchor(anchor: SubAnchorView, rest: Seq<u8>)
    requires
        anchor.mmb_proof.siblings.len() <= MAX_DEPTH,
    ensures
        read_sub_anchor(write_sub_anchor(anchor) + rest) == Some((anchor, rest)),
{
    let proof = anchor.mmb_proof;
    let slot = write_fallback(anchor.fallback_proof) + rest;
    let path = write_path(proof.siblings) + slot;
    assert(write_sub_anchor(anchor) + rest =~= le32(proof.position) + path);
    lemma_read32(proof.position, path);
    lemma_read_path(proof.siblings, slot);
    match anchor.fallback_proof {
        None => {
            assert(slot =~= seq![0u8] + rest);
            lemma_read8(0, rest);
        },
        Some(fallback) => {
            assert(slot =~= seq![1u8] + (seq![fallback.scheme] + rest));
            lemma_read8(1, seq![fallback.scheme] + rest);
            lemma_read8(fallback.scheme, rest);
        },
    }
}

/// Appends a path.
pub(crate) fn put_path(out: &mut Vec<u8>, path: &Vec<Digest>)
    requires
        path@.len() <= MAX_DEPTH,
    ensures
        final(out)@ == old(out)@ + write_path(path@),
{
    out.push(path.len() as u8);
    let ghost head = out@;
    let mut i: usize = 0;
    while i < path.len()
        invariant
            i <= path@.len(),
            out@ == head + write_seq(path@.take(i as int), digest_writer()),
        decreases path@.len() - i,
    {
        proof {
            lemma_write_seq_push(path@.take(i as int), path@[i as int], digest_writer());
            assert(path@.take(i + 1) =~= path@.take(i as int).push(path@[i as int]));
        }
        put_digest(out, &path[i]);
        i += 1;
    }
    assert(path@.take(path@.len() as int) =~= path@);
    assert(out@ =~= old(out)@ + write_path(path@));
}

/// Reads a path at a position.
pub(crate) fn get_path(bytes: &Vec<u8>, at: usize) -> (got: Option<(Vec<Digest>, usize)>)
    requires
        at <= bytes@.len(),
    ensures
        read_at(viewed(got), bytes@, at, read_path(bytes@.skip(at as int))),
{
    let (count, start) = match get8(bytes, at) {
        Some(found) => found,
        None => {
            return None;
        },
    };
    if count as usize > MAX_DEPTH {
        return None;
    }
    let ghost whole = read_seq(bytes@.skip(start as int), count as nat, digest_reader());
    let mut path: Vec<Digest> = Vec::new();
    let mut here: usize = start;
    let mut i: u8 = 0;
    proof {
        lemma_resumes_start(bytes@.skip(start as int), count as nat, digest_reader());
    }
    while i < count
        invariant
            i <= count,
            at <= here <= bytes@.len(),
            read_path(bytes@.skip(at as int)) == whole,
            resumes(whole, path@, bytes@.skip(here as int), (count - i) as nat, digest_reader()),
        decreases count - i,
    {
        proof {
            lemma_resumes_step(whole, path@, bytes@.skip(here as int), (count - i) as nat, digest_reader());
        }
        match get_digest(bytes, here) {
            Some((digest, next)) => {
                path.push(digest);
                here = next;
            },
            None => {
                return None;
            },
        }
        i += 1;
    }
    proof {
        lemma_resumes_end(whole, path@, bytes@.skip(here as int), digest_reader());
    }
    Some((path, here))
}

/// Appends a sub-anchor.
pub(crate) fn put_sub_anchor(out: &mut Vec<u8>, anchor: &SubAnchor)
    requires
        anchor@.mmb_proof.siblings.len() <= MAX_DEPTH,
    ensures
        final(out)@ == old(out)@ + write_sub_anchor(anchor@),
{
    put32(out, anchor.mmb_proof.position);
    put_path(out, &anchor.mmb_proof.siblings);
    match anchor.fallback_proof {
        None => {
            out.push(0);
        },
        Some(proof) => {
            out.push(1);
            out.push(proof.scheme);
        },
    }
    assert(out@ =~= old(out)@ + write_sub_anchor(anchor@));
}

/// Reads a sub-anchor at a position.
pub(crate) fn get_sub_anchor(bytes: &Vec<u8>, at: usize) -> (got: Option<(SubAnchor, usize)>)
    requires
        at <= bytes@.len(),
    ensures
        read_at(viewed(got), bytes@, at, read_sub_anchor(bytes@.skip(at as int))),
{
    let (position, after_position) = match get32(bytes, at) {
        Some(found) => found,
        None => {
            return None;
        },
    };
    let (siblings, after_path) = match get_path(bytes, after_position) {
        Some(found) => found,
        None => {
            return None;
        },
    };
    let (tag, after_tag) = match get8(bytes, after_path) {
        Some(found) => found,
        None => {
            return None;
        },
    };
    let mmb_proof = BundleProof { position, siblings };
    if tag == 0 {
        Some((SubAnchor { mmb_proof, fallback_proof: None }, after_tag))
    } else if tag == 1 {
        match get8(bytes, after_tag) {
            Some((scheme, end)) => Some((SubAnchor { mmb_proof, fallback_proof: Some(FallbackProof { scheme }) }, end)),
            None => None,
        }
    } else {
        None
    }
}

} // verus!
