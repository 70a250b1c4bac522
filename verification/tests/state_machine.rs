use json_editor::reducer::{Effect, InputEvent};
use json_editor::state::{EditingField, EditorState, Screen};

fn type_str(st: &mut EditorState, s: &str) {
    for c in s.chars() {
        let eff = st.handle_input(InputEvent::Char(c));
        assert_eq!(eff, Effect::Nothing);
    }
}

fn pairs_of(st: &EditorState) -> Vec<(String, String)> {
    st.snapshot_pairs().iter().map(|p| (p.key.clone(), p.value.clone())).collect()
}

#[test]
fn new_state_is_main_and_empty() {
    let st = EditorState::new();
    assert!(matches!(st.screen(), Screen::Main));
    assert_eq!(st.editing_field(), None);
    assert!(st.snapshot_pairs().is_empty());
}

#[test]
fn edit_then_escape_leaves_mapping_unchanged() {
    let mut st = EditorState::new();
    type_str(&mut st, "e");
    match st.screen() {
        Screen::Editing { field, pending_key, pending_value } => {
            assert_eq!(*field, EditingField::Key);
            assert!(pending_key.is_empty());
            assert!(pending_value.is_empty());
        }
        other => panic!("expected editing screen, got {:?}", other),
    }
    assert_eq!(st.editing_field(), Some(EditingField::Key));
    let eff = st.handle_input(InputEvent::Esc);
    assert_eq!(eff, Effect::Nothing);
    assert!(matches!(st.screen(), Screen::Main));
    assert_eq!(st.editing_field(), None);
    assert!(st.snapshot_pairs().is_empty());
}

#[test]
fn typing_a_pair_commits_it() {
    let mut st = EditorState::new();
    type_str(&mut st, "e");
    type_str(&mut st, "host");
    st.handle_input(InputEvent::Tab);
    assert_eq!(st.editing_field(), Some(EditingField::Vale));
    type_str(&mut st, "db1");
    let eff = st.handle_input(InputEvent::Enter);
    assert_eq!(eff, Effect::Nothing);
    assert!(matches!(st.screen(), Screen::Main));
    assert_eq!(pairs_of(&st), [("host".to_string(), "db1".to_string())]);
}

#[test]
fn committing_an_existing_key_overwrites_in_place() {
    let mut st = EditorState::new();
    type_str(&mut st, "e");
    type_str(&mut st, "host");
    st.handle_input(InputEvent::Tab);
    type_str(&mut st, "db1");
    st.handle_input(InputEvent::Enter);
    type_str(&mut st, "e");
    type_str(&mut st, "host");
    st.handle_input(InputEvent::Tab);
    type_str(&mut st, "db2");
    st.handle_input(InputEvent::Enter);
    assert_eq!(pairs_of(&st), [("host".to_string(), "db2".to_string())]);
}

#[test]
fn quit_is_confirmed_or_cancelled() {
    let mut st = EditorState::new();
    type_str(&mut st, "e");
    type_str(&mut st, "k");
    st.handle_input(InputEvent::Tab);
    type_str(&mut st, "v");
    st.handle_input(InputEvent::Enter);
    let before = pairs_of(&st);

    let eff = st.handle_input(InputEvent::Char('q'));
    assert_eq!(eff, Effect::Nothing);
    assert!(matches!(st.screen(), Screen::Exiting));
    let eff = st.handle_input(InputEvent::Char('n'));
    assert_eq!(eff, Effect::Nothing);
    assert!(matches!(st.screen(), Screen::Main));
    assert_eq!(pairs_of(&st), before);

    st.handle_input(InputEvent::Char('q'));
    let eff = st.handle_input(InputEvent::Char('y'));
    assert_eq!(eff, Effect::RequestQuit);
    assert!(matches!(st.screen(), Screen::Main));
    assert_eq!(pairs_of(&st), before);
}

#[test]
fn backspace_on_empty_buffer_is_a_noop() {
    let mut st = EditorState::new();
    type_str(&mut st, "e");
    let eff = st.handle_input(InputEvent::Backspace);
    assert_eq!(eff, Effect::Nothing);
    match st.screen() {
        Screen::Editing { field, pending_key, pending_value } => {
            assert_eq!(*field, EditingField::Key);
            assert!(pending_key.is_empty());
            assert!(pending_value.is_empty());
        }
        other => panic!("expected editing screen, got {:?}", other),
    }
}

#[test]
fn backspace_removes_the_last_character() {
    let mut st = EditorState::new();
    type_str(&mut st, "e");
    type_str(&mut st, "ab");
    st.handle_input(InputEvent::Backspace);
    match st.screen() {
        Screen::Editing { pending_key, .. } => assert_eq!(pending_key.as_str(), "a"),
        other => panic!("expected editing screen, got {:?}", other),
    }
}

#[test]
fn tab_switches_fields_without_losing_buffers() {
    let mut st = EditorState::new();
    type_str(&mut st, "e");
    type_str(&mut st, "k");
    st.handle_input(InputEvent::Tab);
    type_str(&mut st, "v");
    st.handle_input(InputEvent::Tab);
    match st.screen() {
        Screen::Editing { field, pending_key, pending_value } => {
            assert_eq!(*field, EditingField::Key);
            assert_eq!(pending_key.as_str(), "k");
            assert_eq!(pending_value.as_str(), "v");
        }
        other => panic!("expected editing screen, got {:?}", other),
    }
}

#[test]
fn enter_on_key_field_advances_to_value_field() {
    let mut st = EditorState::new();
    type_str(&mut st, "e");
    type_str(&mut st, "k");
    let eff = st.handle_input(InputEvent::Enter);
    assert_eq!(eff, Effect::Nothing);
    assert_eq!(st.editing_field(), Some(EditingField::Vale));
    type_str(&mut st, "v");
    st.handle_input(InputEvent::Enter);
    assert_eq!(pairs_of(&st), [("k".to_string(), "v".to_string())]);
}

#[test]
fn escape_discards_typed_scratch_text() {
    let mut st = EditorState::new();
    type_str(&mut st, "e");
    type_str(&mut st, "junk");
    st.handle_input(InputEvent::Tab);
    type_str(&mut st, "junk too");
    st.handle_input(InputEvent::Esc);
    assert!(matches!(st.screen(), Screen::Main));
    assert!(st.snapshot_pairs().is_empty());
    type_str(&mut st, "e");
    match st.screen() {
        Screen::Editing { pending_key, pending_value, .. } => {
            assert!(pending_key.is_empty());
            assert!(pending_value.is_empty());
        }
        other => panic!("expected editing screen, got {:?}", other),
    }
}

#[test]
fn committing_an_empty_key_is_a_noop() {
    let mut st = EditorState::new();
    type_str(&mut st, "e");
    st.handle_input(InputEvent::Tab);
    type_str(&mut st, "orphan value");
    st.handle_input(InputEvent::Enter);
    assert!(matches!(st.screen(), Screen::Main));
    assert!(st.snapshot_pairs().is_empty());
}

#[test]
fn unrecognized_keys_are_ignored() {
    let mut st = EditorState::new();
    let eff = st.handle_input(InputEvent::Char('z'));
    assert_eq!(eff, Effect::Nothing);
    assert!(matches!(st.screen(), Screen::Main));
    let eff = st.handle_input(InputEvent::Backspace);
    assert_eq!(eff, Effect::Nothing);
    assert!(matches!(st.screen(), Screen::Main));
    type_str(&mut st, "e");
    let eff = st.handle_input(InputEvent::Other);
    assert_eq!(eff, Effect::Nothing);
    assert_eq!(st.editing_field(), Some(EditingField::Key));
}

#[test]
fn any_key_cancels_the_exit_prompt_except_y() {
    let mut st = EditorState::new();
    st.handle_input(InputEvent::Char('q'));
    assert!(matches!(st.screen(), Screen::Exiting));
    let eff = st.handle_input(InputEvent::Char('x'));
    assert_eq!(eff, Effect::Nothing);
    assert!(matches!(st.screen(), Screen::Main));
    st.handle_input(InputEvent::Char('q'));
    let eff = st.handle_input(InputEvent::Enter);
    assert_eq!(eff, Effect::Nothing);
    assert!(matches!(st.screen(), Screen::Main));
}

#[test]
fn insertion_order_is_kept_across_overwrites() {
    let mut st = EditorState::new();
    for (k, v) in [("a", "1"), ("b", "2"), ("c", "3"), ("a", "9")] {
        type_str(&mut st, "e");
        type_str(&mut st, k);
        st.handle_input(InputEvent::Tab);
        type_str(&mut st, v);
        st.handle_input(InputEvent::Enter);
    }
    assert_eq!(
        pairs_of(&st),
        [
            ("a".to_string(), "9".to_string()),
            ("b".to_string(), "2".to_string()),
            ("c".to_string(), "3".to_string()),
        ]
    );
}
