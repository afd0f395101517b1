//! The encoding of the multi-protocol block and of the transaction proof.

use vstd::prelude::*;
use crate::dbc::{DbcProof, DbcProofView, TapretProof, SCHEME_OPRET, SCHEME_TAPRET};
use crate::encoding::{get_path, lemma_read_path, put_path, read_path, viewed, write_path};
use crate::merkle::MAX_DEPTH;
use crate::mpc::{ContractId, MerkleBlock, MerkleBlockView, MpcEntry, MpcEntryView};
use crate::wire::{
    framed, get16, get8, get_digest, get_framed, le16, lemma_read16, lemma_read8, lemma_read_digest,
    lemma_read_framed, lemma_read_seq, lemma_resumes_end, lemma_resumes_start, lemma_resumes_step,
    lemma_write_seq_push, put16, put_digest, put_framed, read16, read8, read_at, read_digest, read_framed,
    read_seq, resumes, write_seq,
};

verus! {

/// The most entries that a block can hold: their number is written in two
/// bytes.
pub const MAX_ENTRIES: usize = 65535;

/// The longest payload of a transaction proof: its length is written in two
/// bytes.
pub const MAX_PAYLOAD: usize = 65535;

/// An entry: the contract, the message, then the path.
pub open spec fn write_entry(entry: MpcEntryView) -> Seq<u8> {
    entry.contract@ + entry.message@ + write_path(entry.path)
}

/// Reads an entry.
pub open spec fn read_entry(bytes: Seq<u8>) -> Option<(MpcEntryView, Seq<u8>)> {
    match read_digest(bytes) {
        Some((contract, after_contract)) => match read_digest(after_contract) {
            Some((message, after_message)) => match read_path(after_message) {
                Some((path, end)) => Some((MpcEntryView { contract: ContractId(contract), message, path }, end)),
                None => None,
            },
            None => None,
        },
        None => None,
    }
}

/// How an entry is written.
pub open spec fn entry_writer() -> spec_fn(MpcEntryView) -> Seq<u8> {
    |entry: MpcEntryView| write_entry(entry)
}

/// How an entry is read.
pub open spec fn entry_reader() -> spec_fn(Seq<u8>) -> Option<(MpcEntryView, Seq<u8>)> {
    |bytes: Seq<u8>| read_entry(bytes)
}

/// Whether a block can be written: the number of its entries fits two bytes
/// and no path is longer than the deepest tree.
pub open spec fn block_encodable(block: MerkleBlockView) -> bool {
    &&& block.entries.len() <= MAX_ENTRIES
    &&& forall|i: int| 0 <= i < block.entries.len() ==> (#[trigger] block.entries[i]).path.len() <= MAX_DEPTH
}

/// A block: depth, cofactor, root, the number of entries in two bytes, then
/// the entries.
pub open spec fn write_block(block: MerkleBlockView) -> Seq<u8> {
    seq![block.depth] + le16(block.cofactor) + block.root@ + le16(block.entries.len() as u16) + write_seq(
        block.entries,
        entry_writer(),
    )
}

/// Reads a block.
pub open spec fn read_block(bytes: Seq<u8>) -> Option<(MerkleBlockView, Seq<u8>)> {
    match read8(bytes) {
        Some((depth, after_depth)) => match read16(after_depth) {
            Some((cofactor, after_cofactor)) => match read_digest(after_cofactor) {
                Some((root, after_root)) => match read16(after_root) {
                    Some((count, after_count)) => match read_seq(after_count, count as nat, entry_reader()) {
                        Some((entries, end)) => Some((MerkleBlockView { depth, cofactor, root, entries }, end)),
                        None => None,
                    },
                    None => None,
                },
                None => None,
            },
            None => None,
        },
        None => None,
    }
}

/// The payload that a transaction proof carries behind its scheme tag.
pub open spec fn payload_of(dbc: DbcProofView) -> Seq<u8> {
    match dbc {
        DbcProofView::Opret => Seq::<u8>::empty(),
        DbcProofView::Tapret(encoded) => encoded,
        DbcProofView::Unknown { payload, .. } => payload,
    }
}

/// Whether a transaction proof can be written: the payload's length fits two
/// bytes, and a proof of an unknown scheme does not bear the tag of a known
/// one.
pub open spec fn dbc_encodable(dbc: DbcProofView) -> bool {
    &&& payload_of(dbc).len() <= MAX_PAYLOAD
    &&& dbc matches DbcProofView::Unknown { scheme, .. } ==> scheme != SCHEME_OPRET && scheme != SCHEME_TAPRET
}

/// A transaction proof: the scheme tag, then the payload behind its length.
pub open spec fn write_dbc(dbc: DbcProofView) -> Seq<u8> {
    seq![dbc.scheme()] + framed(payload_of(dbc))
}

/// Reads a transaction proof. A proof under an unknown tag is kept with its
/// payload; an `OP_RETURN` proof with a payload is refused.
pub open spec fn read_dbc(bytes: Seq<u8>) -> Option<(DbcProofView, Seq<u8>)> {
    match read8(bytes) {
        Some((scheme, rest)) => match read_framed(rest) {
            Some((payload, end)) => if scheme == SCHEME_OPRET {
                if payload.len() == 0 {
                    Some((DbcProofView::Opret, end))
                } else {
                    None
                }
            } else if scheme == SCHEME_TAPRET {
                Some((DbcProofView::Tapret(payload), end))
            } else {
                Some((DbcProofView::Unknown { scheme, payload }, end))
            },
            None => None,
        },
        None => None,
    }
}

/// An entry that was written is read back.
pub proof fn lemma_read_entry(entry: MpcEntryView, rest: Seq<u8>)
    requires
        entry.path.len() <= MAX_DEPTH,
    ensures
        read_entry(write_entry(entry) + rest) == Some((entry, rest)),
{
    let path = write_path(entry.path) + rest;
    let message = entry.message@ + path;
    assert(write_entry(entry) + rest =~= entry.contract@ + message);
    lemma_read_digest(entry.contract.0, message);
    lemma_read_digest(entry.message, path);
    lemma_read_path(entry.path, rest);
}

/// A block that was written is read back.
pub proof fn lemma_read_block(block: MerkleBlockView, rest: Seq<u8>)
    requires
        block_encodable(block),
    ensures
        read_block(write_block(block) + rest) == Some((block, rest)),
{
    let entries = write_seq(block.entries, entry_writer()) + rest;
    let count = le16(block.entries.len() as u16) + entries;
    let root = block.root@ + count;
    let cofactor = le16(block.cofactor) + root;
    assert(write_block(block) + rest =~= seq![block.depth] + cofactor);
    lemma_read8(block.depth, cofactor);
    lemma_read16(block.cofactor, root);
    lemma_read_digest(block.root, count);
    lemma_read16(block.entries.len() as u16, entries);
    assert forall|i: int, after: Seq<u8>| 0 <= i < block.entries.len() implies #[trigger] entry_reader()(
        entry_writer()(block.entries[i]) + after,
    ) == Some((block.entries[i], after)) by {
        lemma_read_entry(block.entries[i], after);
    }
    lemma_read_seq(block.entries, entry_writer(), entry_reader(), rest);
}

/// A transaction proof that was written is read back.
pub proof fn lemma_read_dbc(dbc: DbcProofView, rest: Seq<u8>)
    requires
        dbc_encodable(dbc),
    ensures
        read_dbc(write_dbc(dbc) + rest) == Some((dbc, rest)),
{
    let payload = framed(payload_of(dbc)) + rest;
    assert(write_dbc(dbc) + rest =~= seq![dbc.scheme()] + payload);
    lemma_read8(dbc.scheme(), payload);
    lemma_read_framed(payload_of(dbc), rest);
    if dbc is Opret {
        assert(payload_of(dbc).len() == 0);
    }
}

/// Appends an entry.
pub(crate) fn put_entry(out: &mut Vec<u8>, entry: &MpcEntry)
    requires
        entry@.path.len() <= MAX_DEPTH,
    ensures
        final(out)@ == old(out)@ + write_entry(entry@),
{
    put_digest(out, &entry.contract.0);
    put_digest(out, &entry.message);
    put_path(out, &entry.path);
    assert(out@ =~= old(out)@ + write_entry(entry@));
}

/// Reads an entry at a position.
pub(crate) fn get_entry(bytes: &Vec<u8>, at: usize) -> (got: Option<(MpcEntry, usize)>)
    requires
        at <= bytes@.len(),
    ensures
        read_at(viewed(got), bytes@, at, read_entry(bytes@.skip(at as int))),
{
    let (contract, after_contract) = match get_digest(bytes, at) {
        Some(found) => found,
        None => {
            return None;
        },
    };
    let (message, after_message) = match get_digest(bytes, after_contract) {
        Some(found) => found,
        None => {
            return None;
        },
    };
    match get_path(bytes, after_message) {
        Some((path, end)) => Some((MpcEntry { contract: ContractId(contract), message, path }, end)),
        None => None,
    }
}

/// Whether a block can be written.
pub fn is_block_encodable(block: &MerkleBlock) -> (ok: bool)
    ensures
        ok == block_encodable(block@),
{
    if block.entries.len() > MAX_ENTRIES {
        return false;
    }
    let ghost view = block@;
    let mut i: usize = 0;
    while i < block.entries.len()
        invariant
            view == block@,
            i <= block.entries@.len(),
            forall|k: int| 0 <= k < i ==> (#[trigger] view.entries[k]).path.len() <= MAX_DEPTH,
        decreases block.entries@.len() - i,
    {
        assert(view.entries[i as int] == block.entries@[i as int]@);
        if block.entries[i].path.len() > MAX_DEPTH {
            return false;
        }
        i += 1;
    }
    true
}

/// Appends a block.
pub(crate) fn put_block(out: &mut Vec<u8>, block: &MerkleBlock)
    requires
        block_encodable(block@),
    ensures
        final(out)@ == old(out)@ + write_block(block@),
{
    out.push(block.depth);
    put16(out, block.cofactor);
    put_digest(out, &block.root);
    put16(out, block.entries.len() as u16);
    let ghost head = out@;
    let ghost view = block@;
    let mut i: usize = 0;
    while i < block.entries.len()
        invariant
            view == block@,
            block_encodable(view),
            i <= block.entries@.len(),
            out@ == head + write_seq(view.entries.take(i as int), entry_writer()),
        decreases block.entries@.len() - i,
    {
        proof {
            lemma_write_seq_push(view.entries.take(i as int), view.entries[i as int], entry_writer());
            assert(view.entries.take(i + 1) =~= view.entries.take(i as int).push(view.entries[i as int]));
            assert(view.entries[i as int] == block.entries@[i as int]@);
        }
        put_entry(out, &block.entries[i]);
        i += 1;
    }
    assert(view.entries.take(view.entries.len() as int) =~= view.entries);
    assert(out@ =~= old(out)@ + write_block(view));
}

/// Reads a block at a position.
pub(crate) fn get_block(bytes: &Vec<u8>, at: usize) -> (got: Option<(MerkleBlock, usize)>)
    requires
        at <= bytes@.len(),
    ensures
        read_at(viewed(got), bytes@, at, read_block(bytes@.skip(at as int))),
{
    let (depth, after_depth) = match get8(bytes, at) {
        Some(found) => found,
        None => {
            return None;
        },
    };
    let (cofactor, after_cofactor) = match get16(bytes, after_depth) {
        Some(found) => found,
        None => {
            return None;
        },
    };
    let (root, after_root) = match get_digest(bytes, after_cofactor) {
        Some(found) => found,
        None => {
            return None;
        },
    };
    let (count, start) = match get16(bytes, after_root) {
        Some(found) => found,
        None => {
            return None;
        },
    };
    let ghost whole = read_seq(bytes@.skip(start as int), count as nat, entry_reader());
    let ghost wanted = read_block(bytes@.skip(at as int));
    let mut entries: Vec<MpcEntry> = Vec::new();
    let mut here: usize = start;
    let mut i: u16 = 0;
    proof {
        lemma_resumes_start(bytes@.skip(start as int), count as nat, entry_reader());
        assert(entries@.map_values(|e: MpcEntry| e@) =~= Seq::<MpcEntryView>::empty());
    }
    while i < count
        invariant
            i <= count,
            at <= here <= bytes@.len(),
            wanted == read_block(bytes@.skip(at as int)),
            whole.is_none() ==> wanted.is_none(),
            resumes(
                whole,
                entries@.map_values(|e: MpcEntry| e@),
                bytes@.skip(here as int),
                (count - i) as nat,
                entry_reader(),
            ),
        decreases count - i,
    {
        let ghost done = entries@.map_values(|e: MpcEntry| e@);
        proof {
            lemma_resumes_step(whole, done, bytes@.skip(here as int), (count - i) as nat, entry_reader());
        }
        match get_entry(bytes, here) {
            Some((entry, next)) => {
                entries.push(entry);
                here = next;
                assert(entries@.map_values(|e: MpcEntry| e@) =~= done.push(entry@));
            },
            None => {
                return None;
            },
        }
        i += 1;
    }
    proof {
        lemma_resumes_end(whole, entries@.map_values(|e: MpcEntry| e@), bytes@.skip(here as int), entry_reader());
    }
    Some((MerkleBlock { depth, cofactor, root, entries }, here))
}

/// Whether a transaction proof can be written.
pub fn is_dbc_encodable(dbc: &DbcProof) -> (ok: bool)
    ensures
        ok == dbc_encodable(dbc@),
{
    match dbc {
        DbcProof::Opret => true,
        DbcProof::Tapret(tapret) => tapret.encoded.len() <= MAX_PAYLOAD,
        DbcProof::Unknown { scheme, payload } => payload.len() <= MAX_PAYLOAD && *scheme != SCHEME_OPRET && *scheme
            != SCHEME_TAPRET,
    }
}

/// Appends a transaction proof.
pub(crate) fn put_dbc(out: &mut Vec<u8>, dbc: &DbcProof)
    requires
        dbc_encodable(dbc@),
    ensures
        final(out)@ == old(out)@ + write_dbc(dbc@),
{
    match dbc {
        DbcProof::Opret => {
            out.push(SCHEME_OPRET);
            put16(out, 0);
            assert(framed(Seq::<u8>::empty()) =~= le16(0));
        },
        DbcProof::Tapret(tapret) => {
            out.push(SCHEME_TAPRET);
            put_framed(out, &tapret.encoded);
        },
        DbcProof::Unknown { scheme, payload } => {
            out.push(*scheme);
            put_framed(out, payload);
        },
    }
    assert(out@ =~= old(out)@ + write_dbc(dbc@));
}

/// Reads a transaction proof at a position.
pub(crate) fn get_dbc(bytes: &Vec<u8>, at: usize) -> (got: Option<(DbcProof, usize)>)
    requires
        at <= bytes@.len(),
    ensures
        read_at(viewed(got), bytes@, at, read_dbc(bytes@.skip(at as int))),
{
    let (scheme, after_scheme) = match get8(bytes, at) {
        Some(found) => found,
        None => {
            return None;
        },
    };
    let (payload, end) = match get_framed(bytes, after_scheme) {
        Some(found) => found,
        None => {
            return None;
        },
    };
    if scheme == SCHEME_OPRET {
        if payload.len() == 0 {
            Some((DbcProof::Opret, end))
        } else {
            None
        }
    } else if scheme == SCHEME_TAPRET {
        Some((DbcProof::Tapret(TapretProof { encoded: payload }), end))
    } else {
        Some((DbcProof::Unknown { scheme, payload }, end))
    }
}

} // verus!
