use hn_decypher::save_read::document::SaveDocument;
use hn_decypher::save_read::save_file::{
    read_file_from_document, read_file_from_save, Computer, ComputerError, ComputerFindStrategy,
    ReadFileFromSaveError,
};
use hn_decypher::save_read::{
    select_save_file, AccountProfile, Accounts, FileReadOptions, SaveFindError, SaveFindStrategy,
};

const SAVE: &str = r#"<?xml version="1.0"?>
<HacknetSave>
  <NetworkComputers>
    <computer name="Home" ip="10.0.0.1" id="playerComp">
      <filesystem>
        <folder name="/">
          <folder name="home">
            <file name="notes.txt">my notes</file>
            <folder name="deep"><file name="x.dec">deep file</file></folder>
          </folder>
          <folder name="bin"><file name="tool.exe">binary</file></folder>
          <file name="root.txt">at the root</file>
          <file name="empty.txt"></file>
        </folder>
      </filesystem>
    </computer>
    <computer name="Other" ip="1.2.3.4" id="other">
      <filesystem>
        <folder name="/">
          <folder name="home"><file name="notes.txt">other notes</file></folder>
        </folder>
      </filesystem>
    </computer>
    <notacomputer ip="9.9.9.9"/>
  </NetworkComputers>
</HacknetSave>"#;

#[test]
fn read_file_by_id() {
    let text = read_file_from_save(SAVE, ComputerFindStrategy::ById("playerComp"), "home/notes.txt");
    assert_eq!(text.unwrap(), "my notes");
}

#[test]
fn read_file_by_ip_and_name() {
    assert_eq!(
        read_file_from_save(SAVE, ComputerFindStrategy::ByIp("1.2.3.4"), "home/notes.txt").unwrap(),
        "other notes"
    );
    assert_eq!(
        read_file_from_save(SAVE, ComputerFindStrategy::ByName("Other"), "/home/notes.txt").unwrap(),
        "other notes"
    );
}

#[test]
fn default_strategy_is_player_computer() {
    let text = read_file_from_save(SAVE, ComputerFindStrategy::default(), "root.txt");
    assert_eq!(text.unwrap(), "at the root");
}

#[test]
fn path_forms_are_equivalent() {
    for path in [
        "home/deep/x.dec",
        "/home/deep/x.dec",
        "home\\deep\\x.dec",
        "home//deep///x.dec",
        "./home/./deep/x.dec",
        "home/../deep/x.dec",
        "\\home/deep\\x.dec",
        "home/./..//.\\..\\/deep/x.dec",
        "//./..\\home/deep/./x.dec",
    ] {
        let text = read_file_from_save(SAVE, ComputerFindStrategy::ById("playerComp"), path);
        assert_eq!(text.unwrap(), "deep file", "{}", path);
    }
}

#[test]
fn paths_are_case_sensitive() {
    match read_file_from_save(SAVE, ComputerFindStrategy::ById("playerComp"), "Home/notes.txt") {
        Err(ReadFileFromSaveError::FileNotFound) => {}
        other => panic!("unexpected {:?}", other),
    }
}

#[test]
fn file_without_text_is_not_found() {
    match read_file_from_save(SAVE, ComputerFindStrategy::ById("playerComp"), "empty.txt") {
        Err(ReadFileFromSaveError::FileNotFound) => {}
        other => panic!("unexpected {:?}", other),
    }
}

#[test]
fn folder_is_not_a_file() {
    match read_file_from_save(SAVE, ComputerFindStrategy::ById("playerComp"), "home") {
        Err(ReadFileFromSaveError::FileNotFound) => {}
        other => panic!("unexpected {:?}", other),
    }
}

#[test]
fn unknown_computer() {
    match read_file_from_save(SAVE, ComputerFindStrategy::ByIp("9.9.9.9"), "a") {
        Err(ReadFileFromSaveError::ComputerError(ComputerError::NotFound)) => {}
        other => panic!("unexpected {:?}", other),
    }
}

#[test]
fn specific_node_must_be_computer() {
    let doc = SaveDocument::parse(SAVE).unwrap();
    let first_computer = doc
        .nodes
        .iter()
        .position(|n| n.element && n.tag_name == "computer")
        .unwrap();
    let c = Computer::try_new(&doc, ComputerFindStrategy::SpecificNode(first_computer)).unwrap();
    assert_eq!(c.inner(), first_computer);
    assert!(c.file_content("home/notes.txt").as_deref() == Some("my notes"));
    assert!(c.file("home/nothing").is_none());
    match Computer::try_new(&doc, ComputerFindStrategy::SpecificNode(0)) {
        Err(ComputerError::NotAComputer) => {}
        other => panic!("unexpected {:?}", other.map(|c| c.into_inner())),
    }
    match Computer::try_new(&doc, ComputerFindStrategy::SpecificNode(usize::MAX)) {
        Err(ComputerError::NotAComputer) => {}
        other => panic!("unexpected {:?}", other.map(|c| c.into_inner())),
    }
    assert!(ComputerFindStrategy::ById("other").matches(&doc, c.inner()) == false);
    assert!(ComputerFindStrategy::ById("playerComp").matches(&doc, c.inner()));
}

#[test]
fn document_reading() {
    let doc = SaveDocument::parse(SAVE).unwrap();
    assert_eq!(doc.nodes[0].parent, None);
    assert!(!doc.nodes[0].element);
    assert!(doc.nodes.iter().any(|n| n.tag_name == "HacknetSave"));
    assert_eq!(
        read_file_from_document(&doc, ComputerFindStrategy::ById("other"), "home/notes.txt")
            .unwrap(),
        "other notes"
    );
}

#[test]
fn bad_xml_is_a_parse_error() {
    match read_file_from_save("<unclosed>", ComputerFindStrategy::default(), "a") {
        Err(ReadFileFromSaveError::ParseError(_)) => {}
        other => panic!("unexpected {:?}", other),
    }
}

fn accounts() -> Accounts {
    Accounts {
        last_used_profile: Some("alice".to_string()),
        profiles: vec![
            AccountProfile { name: "alice".to_string(), save_file_name: "save_alice.xml".to_string() },
            AccountProfile { name: "bob".to_string(), save_file_name: "save_bob.xml".to_string() },
        ],
    }
}

#[test]
fn save_file_selection() {
    assert_eq!(select_save_file(&accounts(), None).unwrap(), "save_alice.xml");
    assert_eq!(select_save_file(&accounts(), Some("bob")).unwrap(), "save_bob.xml");
    match select_save_file(&accounts(), Some("carol")) {
        Err(SaveFindError::NonexistentAccount(name)) => assert_eq!(name, "carol"),
        other => panic!("unexpected {:?}", other),
    }
    let no_default = Accounts { last_used_profile: None, profiles: vec![] };
    match select_save_file(&no_default, None) {
        Err(SaveFindError::NoDefaultAccount) => {}
        other => panic!("unexpected {:?}", other),
    }
}

#[test]
fn read_options_defaults() {
    let options = FileReadOptions { target: "some/interesting/file.dec", ..Default::default() };
    assert_eq!(options.target, "some/interesting/file.dec");
    match options.save {
        SaveFindStrategy::ByAccount { save_directory: None, account_name: None } => {}
        other => panic!("unexpected {:?}", other),
    }
    match options.computer {
        ComputerFindStrategy::ById(id) => assert_eq!(id, "playerComp"),
        other => panic!("unexpected {:?}", other),
    }
    assert_eq!(FileReadOptions::default().target, "");
}
