use rgb_anchor::frontend::{file_kind, plan, Command, FileKind, Refusal, Task};

fn ext(name: &str) -> Vec<u8> {
    name.as_bytes().to_vec()
}

#[test]
fn extensions_name_the_kinds_of_file() {
    assert_eq!(file_kind(&ext("issuer")), Some(FileKind::Issuer));
    assert_eq!(file_kind(&ext("pfab")), Some(FileKind::Prefab));
    assert_eq!(file_kind(&ext("rgb")), Some(FileKind::Consignment));
    assert_eq!(file_kind(&ext("contract")), Some(FileKind::Stockpile));
    assert_eq!(file_kind(&ext("Issuer")), None);
    assert_eq!(file_kind(&ext("issuers")), None);
    assert_eq!(file_kind(&ext("rg")), None);
    assert_eq!(file_kind(&ext("")), None);
    assert_eq!(file_kind(&vec![0xFF, 0xFE]), None);
}

#[test]
fn each_command_takes_its_kinds_of_file() {
    assert_eq!(plan(Command::Info, Some(&ext("issuer"))), Ok(Task::DescribeIssuer));
    assert_eq!(plan(Command::Inspect, Some(&ext("pfab"))), Ok(Task::PrintPrefab));
    assert_eq!(plan(Command::Inspect, Some(&ext("issuer"))), Ok(Task::PrintIssuer));
    assert_eq!(plan(Command::Dump, Some(&ext("rgb"))), Ok(Task::DumpConsignment));
    assert_eq!(plan(Command::Dump, Some(&ext("contract"))), Ok(Task::DumpStockpile));
}

#[test]
fn other_files_are_refused() {
    assert_eq!(plan(Command::Info, Some(&ext("pfab"))), Err(Refusal::UnknownExtension));
    assert_eq!(plan(Command::Info, Some(&ext("rgb"))), Err(Refusal::UnknownExtension));
    assert_eq!(plan(Command::Inspect, Some(&ext("contract"))), Err(Refusal::UnknownExtension));
    assert_eq!(plan(Command::Dump, Some(&ext("issuer"))), Err(Refusal::UnknownExtension));
    assert_eq!(plan(Command::Dump, Some(&ext("txt"))), Err(Refusal::UnknownExtension));
    for command in [Command::Info, Command::Inspect, Command::Dump] {
        assert_eq!(plan(command, None), Err(Refusal::NoExtension));
        assert_eq!(plan(command, Some(&ext(""))), Err(Refusal::UnknownExtension));
    }
}
