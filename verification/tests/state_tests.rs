use nsedit::input::{InputChunk, KeyCode};
use nsedit::java_model::{Class, Declaration, NamespaceError};
use nsedit::prompt::PendingAction;
use nsedit::state::{poll_cmd_buffer, InputEvent, Project, Selection, State};

fn feed_chord(state: &mut State, k: KeyCode, mods: u8) {
    state.process_input(InputEvent::Key(InputChunk(k, mods)));
}

fn type_text(state: &mut State, text: &str) {
    for c in text.chars() {
        state.process_input(InputEvent::Character(c));
    }
}

#[test]
fn chords_open_the_create_package_prompt_and_typing_creates_it() {
    let mut state = State::new();
    feed_chord(&mut state, KeyCode::C, 0);
    feed_chord(&mut state, KeyCode::P, 0);
    poll_cmd_buffer(&mut state);
    assert!(state.curr_prompt.is_some());
    assert_eq!(
        state.curr_prompt.as_ref().unwrap().action,
        PendingAction::CreatePackage
    );
    type_text(&mut state, "com.tom\r");
    assert!(state.curr_prompt.is_none());
    assert_eq!(state.project.package_list.len(), 1);
    assert_eq!(state.project.package_list[0].name, "com");
    assert_eq!(state.project.package_list[0].package_list[0].name, "tom");
}

#[test]
fn create_class_fills_the_namespace_and_decl_index() {
    let mut state = State::new();
    feed_chord(&mut state, KeyCode::C, 0);
    feed_chord(&mut state, KeyCode::C, 0);
    poll_cmd_buffer(&mut state);
    assert_eq!(
        state.curr_prompt.as_ref().unwrap().action,
        PendingAction::CreateClass
    );
    // slot one: the package; slot two: the class name
    type_text(&mut state, "com.tom\rMyClass\r");
    assert!(state.curr_prompt.is_none());
    let root = &state.project.package_list[0];
    assert_eq!(root.name, "com");
    assert_eq!(root.package_list[0].decl_list.len(), 1);
    assert_eq!(root.package_list[0].decl_list[0].name(), "MyClass");
    // the declaration index was regenerated
    let hits = state.project.decl_completion_list.find_all_subsequences("myclass");
    assert_eq!(hits, vec!["com.tom.MyClass".to_string()]);
}

#[test]
fn unmapped_chord_enqueues_nothing() {
    let mut state = State::new();
    feed_chord(&mut state, KeyCode::C, 0);
    feed_chord(&mut state, KeyCode::X, 0);
    poll_cmd_buffer(&mut state);
    assert!(state.curr_prompt.is_none());
    assert!(state.command_buffer.is_empty());
}

#[test]
fn cancel_chord_drops_the_prompt() {
    let mut state = State::new();
    feed_chord(&mut state, KeyCode::C, 0);
    feed_chord(&mut state, KeyCode::P, 0);
    poll_cmd_buffer(&mut state);
    assert!(state.curr_prompt.is_some());
    feed_chord(&mut state, KeyCode::G, 0b0100);
    assert!(state.curr_prompt.is_none());
}

#[test]
fn select_package_sets_the_selection_on_a_completion_match() {
    let mut state = State::new();
    state.project.add_package("com.tom");
    state.project.regen_pkg_completion_list();
    feed_chord(&mut state, KeyCode::S, 0);
    feed_chord(&mut state, KeyCode::P, 0);
    poll_cmd_buffer(&mut state);
    assert_eq!(
        state.curr_prompt.as_ref().unwrap().action,
        PendingAction::SelectPackage
    );
    type_text(&mut state, "com.tom\r");
    assert_eq!(
        state.project.curr_sel,
        Some(Selection::Package("com.tom".to_string()))
    );
}

#[test]
fn select_package_without_a_match_clears_the_selection() {
    let mut state = State::new();
    state.project.curr_sel = Some(Selection::Package("com".to_string()));
    feed_chord(&mut state, KeyCode::S, 0);
    feed_chord(&mut state, KeyCode::P, 0);
    poll_cmd_buffer(&mut state);
    type_text(&mut state, "nosuch\r");
    assert_eq!(state.project.curr_sel, None);
}

#[test]
fn selection_kind_checks() {
    let s = Selection::Package("com.tom".to_string());
    assert!(s.is_package("com.tom"));
    assert!(!s.is_package("com"));
    assert!(!s.is_decl("com.tom"));
    let d = Selection::Decl("com.A".to_string());
    assert!(d.is_decl("com.A"));
    assert!(!d.is_package("com.A"));
}

#[test]
fn add_decl_member_reports_a_missing_declaration() {
    let mut project = Project::new();
    project.add_package("com.tom");
    let r = project.add_decl_member("com.tom.Missing", "field");
    assert_eq!(r, Err(NamespaceError::DeclarationNotFound));
}

#[test]
fn add_decl_member_extends_an_existing_class() {
    let mut project = Project::new();
    let r = project.add_decl(
        "com.tom",
        Declaration::Class(Class::new_with_name("MyClass")),
    );
    assert_eq!(r, Ok(()));
    let r2 = project.add_decl_member("com.tom.MyClass", "counter");
    assert_eq!(r2, Ok(()));
    let Declaration::Class(c) = &project.package_list[0].package_list[0].decl_list[0];
    assert_eq!(c.members.len(), 1);
}

#[test]
fn duplicate_declaration_in_project_is_refused() {
    let mut project = Project::new();
    let r1 = project.add_decl("com", Declaration::Class(Class::new_with_name("A")));
    assert_eq!(r1, Ok(()));
    let r2 = project.add_decl("com", Declaration::Class(Class::new_with_name("A")));
    assert_eq!(r2, Err(NamespaceError::DuplicateDeclaration));
}

#[test]
fn package_completion_prompt_offers_subsequence_matches() {
    let mut state = State::new();
    state.project.add_package("com.tom.example");
    state.project.add_package("org.other");
    state.project.regen_pkg_completion_list();
    feed_chord(&mut state, KeyCode::S, 0);
    feed_chord(&mut state, KeyCode::P, 0);
    poll_cmd_buffer(&mut state);
    type_text(&mut state, "cte");
    let p = state.curr_prompt.as_ref().unwrap();
    assert_eq!(p.get_completions(), &vec!["com.tom.example".to_string()]);
}
