use age_files::command::Command;

#[test]
fn parses_transform_commands() {
    assert!(matches!(Command::from_str("e", None), Some(Command::EncryptFile)));
    assert!(matches!(Command::from_str("encrypt", None), Some(Command::EncryptFile)));
    assert!(matches!(Command::from_str("d", None), Some(Command::DecryptFile)));
    assert!(matches!(Command::from_str("decrypt", None), Some(Command::DecryptFile)));
}

#[test]
fn parses_new_file_commands() {
    match Command::from_str("new", Some("notes.md")) {
        Some(Command::NewFileName(Some(name))) => assert_eq!(name, "notes.md"),
        other => panic!("unexpected parse: {:?}", other.is_some()),
    }
    assert!(matches!(
        Command::from_str("new", None),
        Some(Command::NewFileName(None))
    ));
    assert!(matches!(
        Command::from_str("", Some("draft.txt")),
        Some(Command::NewFileName(Some(_)))
    ));
}

#[test]
fn rejects_unknown_commands() {
    assert!(Command::from_str("encrypt-all", None).is_none());
    assert!(Command::from_str("E", None).is_none());
    assert!(Command::from_str("sent", None).is_none());
}
