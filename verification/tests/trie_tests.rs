use nsedit::command::input_trie::{AddCommandError, InputTrie};
use nsedit::command::{Command, CreateCommand, CreateObject};
use nsedit::input::{InputChunk, KeyCode};

#[test]
pub fn test_str_cmd_insertion() {
    let mut input_trie = InputTrie::new();
    input_trie
        .add_cmd_str("cc", Command::Create(CreateCommand(CreateObject::Class)))
        .unwrap();
    input_trie
        .add_cmd_str("cp", Command::Create(CreateCommand(CreateObject::Package)))
        .unwrap();
    assert_eq!(input_trie.roots.len(), 1);
    assert_eq!(input_trie.trie_nodes.len(), 3);
}

#[test]
pub fn test_advance_node_ref() {
    let mut input_trie = InputTrie::new();
    input_trie
        .add_cmd_str("cc", Command::Create(CreateCommand(CreateObject::Class)))
        .unwrap();
    input_trie
        .add_cmd_str("cp", Command::Create(CreateCommand(CreateObject::Package)))
        .unwrap();
    assert_eq!(
        input_trie.advance_node_ref(None, InputChunk(KeyCode::C, 0)),
        Some(0)
    );
    assert_eq!(
        input_trie.advance_node_ref(Some(0), InputChunk(KeyCode::C, 0)),
        Some(1)
    );
    assert_eq!(
        input_trie.advance_node_ref(Some(0), InputChunk(KeyCode::P, 0)),
        Some(2)
    );
    assert_eq!(
        input_trie.advance_node_ref(Some(1), InputChunk(KeyCode::P, 0)),
        None
    );
    assert_eq!(
        input_trie.advance_node_ref(Some(2), InputChunk(KeyCode::P, 0)),
        None
    );
}

#[test]
fn empty_command_string_is_refused() {
    let mut input_trie = InputTrie::new();
    let r = input_trie.add_cmd_str("", Command::Create(CreateCommand(CreateObject::Class)));
    assert_eq!(r, Err(AddCommandError::CommandEmpty));
}

#[test]
fn longer_command_after_shorter_prefix_is_refused() {
    let mut input_trie = InputTrie::new();
    input_trie
        .add_cmd_str("cc", Command::Create(CreateCommand(CreateObject::Class)))
        .unwrap();
    let r = input_trie.add_cmd_str("ccx", Command::Create(CreateCommand(CreateObject::Package)));
    assert_eq!(r, Err(AddCommandError::CommandAlreadyPrefixed));
}

#[test]
fn same_command_string_twice_is_refused() {
    let mut input_trie = InputTrie::new();
    input_trie
        .add_cmd_str("cc", Command::Create(CreateCommand(CreateObject::Class)))
        .unwrap();
    let r = input_trie.add_cmd_str("cc", Command::Create(CreateCommand(CreateObject::Package)));
    assert_eq!(r, Err(AddCommandError::CommandAlreadyPrefixed));
}

#[test]
fn case_sets_the_shift_bit() {
    let mut input_trie = InputTrie::new();
    input_trie
        .add_cmd_str("cC", Command::Create(CreateCommand(CreateObject::Class)))
        .unwrap();
    assert_eq!(
        input_trie.advance_node_ref(None, InputChunk(KeyCode::C, 0)),
        Some(0)
    );
    // the second chord needs the shift bit
    assert_eq!(
        input_trie.advance_node_ref(Some(0), InputChunk(KeyCode::C, 0)),
        None
    );
    assert_eq!(
        input_trie.advance_node_ref(Some(0), InputChunk(KeyCode::C, 0b1000)),
        Some(1)
    );
}

#[test]
fn terminal_commands_sit_on_the_leaves() {
    let mut input_trie = InputTrie::new();
    input_trie
        .add_cmd_str("cc", Command::Create(CreateCommand(CreateObject::Class)))
        .unwrap();
    input_trie
        .add_cmd_str("cp", Command::Create(CreateCommand(CreateObject::Package)))
        .unwrap();
    assert_eq!(input_trie.get_cmd(0), None);
    assert_eq!(
        input_trie.get_cmd(1),
        Some(&Command::Create(CreateCommand(CreateObject::Class)))
    );
    assert_eq!(
        input_trie.get_cmd(2),
        Some(&Command::Create(CreateCommand(CreateObject::Package)))
    );
}

#[test]
fn shorter_command_after_longer_extension_is_refused() {
    let mut input_trie = InputTrie::new();
    input_trie
        .add_cmd_str("cc", Command::Create(CreateCommand(CreateObject::Class)))
        .unwrap();
    // "c" is a proper prefix of the committed "cc": inserting it must fail
    let r = input_trie.add_cmd_str("c", Command::Create(CreateCommand(CreateObject::Package)));
    assert_eq!(r, Err(AddCommandError::CommandAlreadyPrefixed));
    // the trie is untouched: "cc" still resolves, "c" commits nothing
    assert_eq!(input_trie.roots.len(), 1);
    assert_eq!(input_trie.trie_nodes.len(), 2);
    assert_eq!(input_trie.get_cmd(0), None);
    assert_eq!(
        input_trie.get_cmd(1),
        Some(&Command::Create(CreateCommand(CreateObject::Class)))
    );
}

#[test]
fn deep_prefix_of_a_committed_sequence_is_refused() {
    let mut input_trie = InputTrie::new();
    input_trie
        .add_cmd_str("abc", Command::Create(CreateCommand(CreateObject::Class)))
        .unwrap();
    let r1 = input_trie.add_cmd_str("ab", Command::Create(CreateCommand(CreateObject::Package)));
    assert_eq!(r1, Err(AddCommandError::CommandAlreadyPrefixed));
    let r2 = input_trie.add_cmd_str("a", Command::Create(CreateCommand(CreateObject::Package)));
    assert_eq!(r2, Err(AddCommandError::CommandAlreadyPrefixed));
    // a sibling sequence sharing only a prefix is still accepted
    let r3 = input_trie.add_cmd_str("abd", Command::Create(CreateCommand(CreateObject::Package)));
    assert_eq!(r3, Ok(()));
}
