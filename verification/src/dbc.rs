//! The transaction layer: the proof that a root was written, by a fixed
//! derivation, into an output of a transaction.

use vstd::prelude::*;
use amplify::confinement::Confined;
use bc::ScriptPubkey;
use commit_verify::mpc::Commitment;
use commit_verify::ConvolveCommit;
use strict_encoding::StrictDeserialize;
use crate::digest::Digest;
use crate::error::AnchorError;

verus! {

/// What verification reads of a transaction: the locking script of each
/// output, in the order of the outputs.
#[derive(Clone, Debug)]
pub struct Tx {
    pub outputs: Vec<Vec<u8>>,
}

impl View for Tx {
    type V = Seq<Seq<u8>>;

    open spec fn view(&self) -> Seq<Seq<u8>> {
        self.outputs@.map_values(|script: Vec<u8>| script@)
    }
}

/// A taproot commitment proof in its serialized form: the internal key and
/// the partner node of the commitment leaf. Only the key arithmetic reads it.
#[derive(Clone, Debug)]
pub struct TapretProof {
    pub encoded: Vec<u8>,
}

/// The scheme tag of commitments in an `OP_RETURN` output.
pub const SCHEME_OPRET: u8 = 0;

/// The scheme tag of commitments in a taproot output key.
pub const SCHEME_TAPRET: u8 = 1;

/// A proof that binds a root to a transaction output, under one of the
/// schemes that the protocol defines. A proof under any other tag is kept as
/// it came and verifies against nothing.
#[derive(Clone, Debug)]
pub enum DbcProof {
    Opret,
    Tapret(TapretProof),
    Unknown { scheme: u8, payload: Vec<u8> },
}

/// A proof as values.
pub enum DbcProofView {
    Opret,
    Tapret(Seq<u8>),
    Unknown { scheme: u8, payload: Seq<u8> },
}

impl View for DbcProof {
    type V = DbcProofView;

    open spec fn view(&self) -> DbcProofView {
        match self {
            DbcProof::Opret => DbcProofView::Opret,
            DbcProof::Tapret(proof) => DbcProofView::Tapret(proof.encoded@),
            DbcProof::Unknown { scheme, payload } => DbcProofView::Unknown { scheme: *scheme, payload: payload@ },
        }
    }
}

/// The kinds of output that carry a commitment.
#[derive(Clone, Copy, Debug, PartialEq, Eq, Structural)]
pub enum Carrier {
    OpReturn,
    Taproot,
}

/// Whether a locking script is of the given kind: an `OP_RETURN` script
/// starts with that opcode; a taproot script is 34 bytes, `OP_1` and a push of
/// 32 bytes.
pub open spec fn is_carrier(script: Seq<u8>, kind: Carrier) -> bool {
    match kind {
        Carrier::OpReturn => script.len() > 0 && script[0] == 0x6a,
        Carrier::Taproot => script.len() == 34 && script[0] == 0x51 && script[1] == 0x20,
    }
}

/// Whether output `i` is the first output of the given kind.
pub open spec fn is_first_carrier(outputs: Seq<Seq<u8>>, kind: Carrier, i: int) -> bool {
    &&& 0 <= i < outputs.len()
    &&& is_carrier(outputs[i], kind)
    &&& forall|j: int| 0 <= j < i ==> !is_carrier(#[trigger] outputs[j], kind)
}

/// The script of an `OP_RETURN` output that commits to a root: the opcode, a
/// push of 32 bytes, the root.
pub open spec fn op_return_script(root: Seq<u8>) -> Seq<u8> {
    seq![0x6au8, 0x20u8] + root
}

/// The taproot locking script that a serialized proof and a root derive;
/// `None` where the proof does not decode or admits no commitment.
pub uninterp spec fn tapret_script(proof: Seq<u8>, root: Seq<u8>) -> Option<Seq<u8>>;

/// Calls `bc::ScriptPubkey::op_return` on the 32 bytes of a root. By the
/// source the script is the `OP_RETURN` opcode, the one-byte push opcode for 32
/// bytes, and the data.
#[verifier::external_body]
fn make_op_return_script(root: &Digest) -> (script: Vec<u8>)
    ensures
        script@ == op_return_script(root@),
{
    ScriptPubkey::op_return(root).to_vec()
}

/// Decodes a `dbc::tapret::TapretProof` with `from_strict_serialized` and
/// calls `convolve_commit` of `bc::ScriptPubkey` with it: the internal key is
/// tweaked with the commitment to the root, and the result is the locking
/// script of the tweaked key. `None` stands for bytes that do not decode and
/// for a proof that the derivation rejects. The contract only names the
/// result. The key arithmetic aborts where a digest exceeds the curve order,
/// which no known input does.
#[verifier::external_body]
fn derive_tapret_script(proof: &Vec<u8>, root: &Digest) -> (script: Option<Vec<u8>>)
    ensures
        match (script, tapret_script(proof@, root@)) {
            (Some(s), Some(named)) => s@ == named,
            (None, None) => true,
            _ => false,
        },
{
    let data = Confined::<Vec<u8>, 0, 0xFFFF>::try_from(proof.clone()).ok()?;
    let proof = dbc::tapret::TapretProof::from_strict_serialized::<0xFFFF>(data).ok()?;
    let (script, _) = ScriptPubkey::new().convolve_commit(&proof, &Commitment::from(*root)).ok()?;
    Some(script.to_vec())
}

/// Whether two byte strings are equal.
pub fn bytes_eq(a: &Vec<u8>, b: &Vec<u8>) -> (same: bool)
    ensures
        same == (a@ == b@),
{
    if a.len() != b.len() {
        return false;
    }
    let mut i: usize = 0;
    while i < a.len()
        invariant
            a@.len() == b@.len(),
            i <= a@.len(),
            forall|j: int| 0 <= j < i ==> a@[j] == b@[j],
        decreases a@.len() - i,
    {
        if a[i] != b[i] {
            return false;
        }
        i += 1;
    }
    assert(a@ =~= b@);
    true
}

/// Tells whether a locking script is of the given kind.
pub fn script_is(script: &Vec<u8>, kind: Carrier) -> (yes: bool)
    ensures
        yes == is_carrier(script@, kind),
{
    match kind {
        Carrier::OpReturn => script.len() > 0 && script[0] == 0x6a,
        Carrier::Taproot => script.len() == 34 && script[0] == 0x51 && script[1] == 0x20,
    }
}

impl Tx {
    /// Finds the first output of the given kind: the one output that a
    /// commitment under the matching scheme may live in.
    pub fn first_carrier(&self, kind: Carrier) -> (found: Option<usize>)
        ensures
            match found {
                Some(i) => is_first_carrier(self@, kind, i as int),
                None => forall|j: int| 0 <= j < self@.len() ==> !is_carrier(#[trigger] self@[j], kind),
            },
    {
        let mut i: usize = 0;
        while i < self.outputs.len()
            invariant
                i <= self.outputs@.len() == self@.len(),
                forall|j: int| 0 <= j < i ==> !is_carrier(#[trigger] self@[j], kind),
            decreases self.outputs@.len() - i,
        {
            assert(self@[i as int] == self.outputs@[i as int]@);
            if script_is(&self.outputs[i], kind) {
                return Some(i);
            }
            i += 1;
        }
        None
    }
}

impl DbcProofView {
    /// The tag of the proof's scheme.
    pub open spec fn scheme(self) -> u8 {
        match self {
            DbcProofView::Opret => SCHEME_OPRET,
            DbcProofView::Tapret(_) => SCHEME_TAPRET,
            DbcProofView::Unknown { scheme, .. } => scheme,
        }
    }

    /// Whether the verifier implements the proof's scheme.
    pub open spec fn supported(self) -> bool {
        !(self is Unknown)
    }

    /// The kind of output that the proof's scheme writes to.
    pub open spec fn carrier(self) -> Carrier {
        match self {
            DbcProofView::Tapret(_) => Carrier::Taproot,
            _ => Carrier::OpReturn,
        }
    }

    /// The locking script that commits to `root` under the proof's scheme;
    /// `None` where the scheme is not implemented or the derivation fails.
    pub open spec fn expected_script(self, root: Seq<u8>) -> Option<Seq<u8>> {
        match self {
            DbcProofView::Opret => Some(op_return_script(root)),
            DbcProofView::Tapret(proof) => tapret_script(proof, root),
            DbcProofView::Unknown { .. } => None,
        }
    }

    /// Whether the transaction commits to `root` under the proof: the
    /// scheme derives a script from the root, and the first output of the
    /// scheme's kind holds exactly that script.
    pub open spec fn commits(self, root: Seq<u8>, outputs: Seq<Seq<u8>>) -> bool {
        exists|i: int| #[trigger]
            is_first_carrier(outputs, self.carrier(), i) && self.expected_script(root) == Some(outputs[i])
    }

    /// The outcome of verification: an unsupported scheme is told first,
    /// then a transaction that does not carry the commitment.
    pub open spec fn check(self, root: Seq<u8>, outputs: Seq<Seq<u8>>) -> Result<(), AnchorError> {
        if !self.supported() {
            Err(AnchorError::UnsupportedScheme)
        } else if self.commits(root, outputs) {
            Ok(())
        } else {
            Err(AnchorError::TransactionMismatch)
        }
    }
}

impl DbcProof {
    /// The tag of the proof's scheme.
    pub fn scheme(&self) -> (tag: u8)
        ensures
            tag == self@.scheme(),
    {
        match self {
            DbcProof::Opret => SCHEME_OPRET,
            DbcProof::Tapret(_) => SCHEME_TAPRET,
            DbcProof::Unknown { scheme, .. } => *scheme,
        }
    }

    /// Whether the verifier implements the proof's scheme.
    pub fn is_supported(&self) -> (yes: bool)
        ensures
            yes == self@.supported(),
    {
        match self {
            DbcProof::Unknown { .. } => false,
            _ => true,
        }
    }

    /// Derives the locking script that commits to `root`.
    pub fn derive_script(&self, root: &Digest) -> (script: Option<Vec<u8>>)
        ensures
            match (script, self@.expected_script(root@)) {
                (Some(s), Some(e)) => s@ == e,
                (None, None) => true,
                _ => false,
            },
    {
        match self {
            DbcProof::Opret => Some(make_op_return_script(root)),
            DbcProof::Tapret(proof) => derive_tapret_script(&proof.encoded, root),
            DbcProof::Unknown { .. } => None,
        }
    }

    /// Verifies the proof against a transaction, telling an unsupported
    /// scheme from a transaction that does not carry the commitment.
    pub fn check(&self, committed_root: &Digest, transaction: &Tx) -> (outcome: Result<(), AnchorError>)
        ensures
            outcome == self@.check(committed_root@, transaction@),
    {
        let kind = match self {
            DbcProof::Opret => Carrier::OpReturn,
            DbcProof::Tapret(_) => Carrier::Taproot,
            DbcProof::Unknown { .. } => {
                return Err(AnchorError::UnsupportedScheme);
            },
        };
        let ghost outputs = transaction@;
        let index = match transaction.first_carrier(kind) {
            Some(i) => i,
            None => {
                assert(!self@.commits(committed_root@, outputs));
                return Err(AnchorError::TransactionMismatch);
            },
        };
        assert forall|i: int| #[trigger] is_first_carrier(outputs, kind, i) implies i == index by {
            if i < index {
                assert(!is_carrier(outputs[i], kind));
            } else if i > index {
                assert(!is_carrier(outputs[index as int], kind));
            }
        }
        assert(outputs[index as int] == transaction.outputs@[index as int]@);
        match self.derive_script(committed_root) {
            Some(script) => {
                if bytes_eq(&script, &transaction.outputs[index]) {
                    assert(is_first_carrier(outputs, self@.carrier(), index as int));
                    Ok(())
                } else {
                    Err(AnchorError::TransactionMismatch)
                }
            },
            None => Err(AnchorError::TransactionMismatch),
        }
    }

    /// Whether the transaction commits to `committed_root` under this proof.
    /// A proof of an unsupported scheme verifies against nothing.
    pub fn verify(&self, committed_root: &Digest, transaction: &Tx) -> (ok: bool)
        ensures
            ok == self@.check(committed_root@, transaction@).is_ok(),
    {
        self.check(committed_root, transaction).is_ok()
    }
}

} // verus!
