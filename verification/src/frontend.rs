//! What a command-line front end decides before it touches a file: which
//! kind of file an extension names, and what a command does with that kind.

use vstd::prelude::*;

verus! {

/// The commands of the front end.
#[derive(Clone, Copy, Debug, PartialEq, Eq, Structural)]
pub enum Command {
    Info,
    Inspect,
    Dump,
}

/// The kinds of file that the front end knows, each by its extension.
#[derive(Clone, Copy, Debug, PartialEq, Eq, Structural)]
pub enum FileKind {
    /// `issuer`: a contract schema.
    Issuer,
    /// `pfab`: a prefabricated bundle.
    Prefab,
    /// `rgb`: a consignment.
    Consignment,
    /// `contract`: a stockpile directory.
    Stockpile,
}

/// What the front end is to do.
#[derive(Clone, Copy, Debug, PartialEq, Eq, Structural)]
pub enum Task {
    DescribeIssuer,
    PrintIssuer,
    PrintPrefab,
    DumpConsignment,
    DumpStockpile,
}

/// Why the front end does nothing.
#[derive(Clone, Copy, Debug, PartialEq, Eq, Structural)]
pub enum Refusal {
    /// The file has an extension that the command does not take.
    UnknownExtension,
    /// The file has no extension.
    NoExtension,
}

/// The bytes of `issuer`.
pub open spec fn issuer_name() -> Seq<u8> {
    seq![0x69u8, 0x73, 0x73, 0x75, 0x65, 0x72]
}

/// The bytes of `pfab`.
pub open spec fn prefab_name() -> Seq<u8> {
    seq![0x70u8, 0x66, 0x61, 0x62]
}

/// The bytes of `rgb`.
pub open spec fn consignment_name() -> Seq<u8> {
    seq![0x72u8, 0x67, 0x62]
}

/// The bytes of `contract`.
pub open spec fn stockpile_name() -> Seq<u8> {
    seq![0x63u8, 0x6f, 0x6e, 0x74, 0x72, 0x61, 0x63, 0x74]
}

/// The kind of file that an extension names, byte for byte.
pub open spec fn kind_of(extension: Seq<u8>) -> Option<FileKind> {
    if extension == issuer_name() {
        Some(FileKind::Issuer)
    } else if extension == prefab_name() {
        Some(FileKind::Prefab)
    } else if extension == consignment_name() {
        Some(FileKind::Consignment)
    } else if extension == stockpile_name() {
        Some(FileKind::Stockpile)
    } else {
        None
    }
}

/// What a command does with a kind of file, if it takes that kind.
pub open spec fn task_for(command: Command, kind: FileKind) -> Option<Task> {
    match (command, kind) {
        (Command::Info, FileKind::Issuer) => Some(Task::DescribeIssuer),
        (Command::Inspect, FileKind::Prefab) => Some(Task::PrintPrefab),
        (Command::Inspect, FileKind::Issuer) => Some(Task::PrintIssuer),
        (Command::Dump, FileKind::Consignment) => Some(Task::DumpConsignment),
        (Command::Dump, FileKind::Stockpile) => Some(Task::DumpStockpile),
        _ => None,
    }
}

/// What the front end does for a command and the extension of its file.
pub open spec fn planned(command: Command, extension: Option<Seq<u8>>) -> Result<Task, Refusal> {
    match extension {
        None => Err(Refusal::NoExtension),
        Some(bytes) => match kind_of(bytes) {
            None => Err(Refusal::UnknownExtension),
            Some(kind) => match task_for(command, kind) {
                None => Err(Refusal::UnknownExtension),
                Some(task) => Ok(task),
            },
        },
    }
}

/// Whether a byte string equals a name.
fn equals<const N: usize>(bytes: &Vec<u8>, name: &[u8; N]) -> (same: bool)
    ensures
        same == (bytes@ == name@),
{
    if bytes.len() != N {
        return false;
    }
    let mut i: usize = 0;
    while i < N
        invariant
            bytes@.len() == N == name@.len(),
            i <= N,
            forall|j: int| 0 <= j < i ==> bytes@[j] == name@[j],
        decreases N - i,
    {
        if bytes[i] != name[i] {
            return false;
        }
        i += 1;
    }
    assert(bytes@ =~= name@);
    true
}

/// Tells the kind of file that an extension names.
pub fn file_kind(extension: &Vec<u8>) -> (kind: Option<FileKind>)
    ensures
        kind == kind_of(extension@),
{
    let issuer: [u8; 6] = [0x69, 0x73, 0x73, 0x75, 0x65, 0x72];
    let prefab: [u8; 4] = [0x70, 0x66, 0x61, 0x62];
    let consignment: [u8; 3] = [0x72, 0x67, 0x62];
    let stockpile: [u8; 8] = [0x63, 0x6f, 0x6e, 0x74, 0x72, 0x61, 0x63, 0x74];
    assert(issuer@ =~= issuer_name());
    assert(prefab@ =~= prefab_name());
    assert(consignment@ =~= consignment_name());
    assert(stockpile@ =~= stockpile_name());
    if equals(extension, &issuer) {
        Some(FileKind::Issuer)
    } else if equals(extension, &prefab) {
        Some(FileKind::Prefab)
    } else if equals(extension, &consignment) {
        Some(FileKind::Consignment)
    } else if equals(extension, &stockpile) {
        Some(FileKind::Stockpile)
    } else {
        None
    }
}

/// Decides what a command does with a file, from the file's extension
/// alone: nothing is read before the command is known to take the file.
pub fn plan(command: Command, extension: Option<&Vec<u8>>) -> (outcome: Result<Task, Refusal>)
    ensures
        outcome == planned(
            command,
            match extension {
                Some(bytes) => Some(bytes@),
                None => None,
            },
        ),
{
    let bytes = match extension {
        Some(bytes) => bytes,
        None => {
            return Err(Refusal::NoExtension);
        },
    };
    let kind = match file_kind(bytes) {
        Some(kind) => kind,
        None => {
            return Err(Refusal::UnknownExtension);
        },
    };
    match (command, kind) {
        (Command::Info, FileKind::Issuer) => Ok(Task::DescribeIssuer),
        (Command::Inspect, FileKind::Prefab) => Ok(Task::PrintPrefab),
        (Command::Inspect, FileKind::Issuer) => Ok(Task::PrintIssuer),
        (Command::Dump, FileKind::Consignment) => Ok(Task::DumpConsignment),
        (Command::Dump, FileKind::Stockpile) => Ok(Task::DumpStockpile),
        _ => Err(Refusal::UnknownExtension),
    }
}

} // verus!
