use nsedit::input::{InputChunk, KeyCode};
use nsedit::prompt::{PendingAction, Prompt, PromptInput, PromptType};

fn three_completion_session() -> PromptInput {
    let prompts = vec![PromptType::Package(Prompt::new("Package Name"))];
    let mut p = PromptInput::new(prompts, PendingAction::CreatePackage);
    p.curr_completions = vec!["one".to_string(), "two".to_string(), "three".to_string()];
    p
}

const TAB: InputChunk = InputChunk(KeyCode::Tab, 0);
const SHIFT_TAB: InputChunk = InputChunk(KeyCode::Tab, 0b1000);
const BACK: InputChunk = InputChunk(KeyCode::Back, 0);

#[test]
fn forward_cycle_visits_last_to_first_then_deactivates() {
    let mut p = three_completion_session();
    assert_eq!(p.get_active_completion(), None);
    p.key_input(TAB);
    assert_eq!(p.get_active_completion(), Some(2));
    p.key_input(TAB);
    assert_eq!(p.get_active_completion(), Some(1));
    p.key_input(TAB);
    assert_eq!(p.get_active_completion(), Some(0));
    p.key_input(TAB);
    assert_eq!(p.get_active_completion(), None);
}

#[test]
fn backward_cycle_with_no_active_completion_moves_to_previous_slot() {
    let prompts = vec![
        PromptType::Package(Prompt::new_with_default("Package Name", "com")),
        PromptType::String(Prompt::new("Class Name")),
    ];
    let mut p = PromptInput::new(prompts, PendingAction::CreateClass);
    // the first slot has a default, so collection starts at the second
    assert_eq!(p.get_curr_prompt(), 1);
    p.curr_completions = vec!["one".to_string(), "two".to_string(), "three".to_string()];
    // with completions present but none active, backward does not cycle
    p.key_input(SHIFT_TAB);
    assert_eq!(p.get_active_completion(), None);
    assert_eq!(p.get_curr_prompt(), 0);
    // the floor is slot 0
    p.key_input(SHIFT_TAB);
    assert_eq!(p.get_curr_prompt(), 0);
}

#[test]
fn backward_cycle_undoes_forward_cycle() {
    let mut p = three_completion_session();
    p.key_input(TAB);
    p.key_input(TAB);
    assert_eq!(p.get_active_completion(), Some(1));
    p.key_input(SHIFT_TAB);
    assert_eq!(p.get_active_completion(), Some(2));
    p.key_input(SHIFT_TAB);
    assert_eq!(p.get_active_completion(), None);
}

#[test]
fn typed_characters_append_and_read_back() {
    let mut p = three_completion_session();
    assert!(!p.char_input('a'));
    assert!(!p.char_input('b'));
    assert!(!p.char_input('c'));
    assert_eq!(p.get_curr_input(), "abc");
    p.key_input(BACK);
    assert_eq!(p.get_curr_input(), "ab");
}

#[test]
fn selecting_a_completion_replaces_the_buffer_then_characters_append() {
    let mut p = three_completion_session();
    p.char_input('o');
    p.key_input(TAB);
    assert_eq!(p.get_active_completion(), Some(2));
    // a printable character first commits the selected completion
    p.char_input('X');
    assert_eq!(p.get_active_completion(), None);
    assert_eq!(p.get_curr_input(), "threeX");
}

#[test]
fn terminator_commits_and_finishes_the_last_slot() {
    let mut p = three_completion_session();
    p.char_input('t');
    p.char_input('w');
    p.char_input('o');
    let done = p.char_input('\r');
    assert!(done);
    assert_eq!(p.inputs[0], "two");
    // the committed value matched the completion list exactly
    assert!(p.completion_match[0]);
}

#[test]
fn committing_text_that_matches_no_completion_clears_the_flag() {
    let mut p = three_completion_session();
    p.char_input('z');
    let done = p.char_input('\n');
    assert!(done);
    assert_eq!(p.inputs[0], "z");
    assert!(!p.completion_match[0]);
}

#[test]
fn control_characters_are_ignored() {
    let mut p = three_completion_session();
    p.char_input('a');
    p.char_input('\u{7}');
    p.char_input('\u{1b}');
    assert_eq!(p.get_curr_input(), "a");
}
