use markview::keys::{
    key, list_key, step_highlight, Edit, Key, ListKey, Mods, Motion, NamedKey, Outcome,
};

const NONE: Mods = Mods { control: false, alt: false, shift: false, super_key: false };
const CTRL: Mods = Mods { control: true, ..NONE };
const CMD: Mods = Mods { super_key: true, ..NONE };

fn ch(s: &str) -> Key {
    Key::Character(s.to_string())
}

#[test]
fn a_composition_owns_every_key() {
    assert_eq!(key(true, &Key::Named(NamedKey::Escape), None, NONE, false), (Some(Edit::CancelCompose), Outcome::Consumed));
    assert_eq!(key(true, &ch("a"), Some("a"), CTRL, false), (None, Outcome::Consumed));
    assert_eq!(key(true, &Key::Named(NamedKey::Enter), None, NONE, false), (None, Outcome::Consumed));
}

#[test]
fn primary_chords_edit_the_field_or_reach_the_reader() {
    assert_eq!(key(false, &ch("a"), Some("a"), CTRL, false), (Some(Edit::SelectAll), Outcome::Consumed));
    assert_eq!(key(false, &ch("C"), None, CTRL, false), (Some(Edit::Copy), Outcome::Consumed));
    assert_eq!(key(false, &ch("x"), None, CMD, true), (Some(Edit::Cut), Outcome::Consumed));
    assert_eq!(key(false, &ch("v"), None, CTRL, false), (Some(Edit::Paste), Outcome::Consumed));
    assert_eq!(key(false, &ch("z"), None, CTRL, false), (Some(Edit::Undo { redo: false }), Outcome::Consumed));
    assert_eq!(key(false, &ch("Z"), None, Mods { shift: true, ..CTRL }, false), (Some(Edit::Undo { redo: true }), Outcome::Consumed));
    assert_eq!(key(false, &ch("y"), None, CTRL, false), (Some(Edit::Undo { redo: true }), Outcome::Consumed));
    assert_eq!(key(false, &ch("y"), None, CMD, true), (None, Outcome::Consumed));
    for c in ["q", "o", "e", ",", "t"] {
        assert_eq!(key(false, &ch(c), None, CTRL, false), (None, Outcome::Application), "{c}");
    }
    // Control with Alt is AltGr: it types.
    let altgr = Mods { control: true, alt: true, ..NONE };
    assert_eq!(key(false, &ch("@"), Some("@"), altgr, false), (Some(Edit::Type("@".into())), Outcome::Consumed));
    // On macOS Control is not the primary modifier.
    assert_eq!(key(false, &ch("a"), Some("a"), CTRL, true), (Some(Edit::Type("a".into())), Outcome::Consumed));
}

#[test]
fn arrows_move_and_leave_keys_leave_the_field() {
    assert_eq!(
        key(false, &Key::Named(NamedKey::ArrowLeft), None, NONE, false),
        (Some(Edit::Move { motion: Motion::Left, extend: false }), Outcome::Consumed)
    );
    assert_eq!(
        key(false, &Key::Named(NamedKey::ArrowRight), None, Mods { shift: true, ..CTRL }, false),
        (Some(Edit::Move { motion: Motion::WordRight, extend: true }), Outcome::Consumed)
    );
    assert_eq!(
        key(false, &Key::Named(NamedKey::ArrowLeft), None, CMD, true),
        (Some(Edit::Move { motion: Motion::Start, extend: false }), Outcome::Consumed)
    );
    assert_eq!(
        key(false, &Key::Named(NamedKey::ArrowRight), None, Mods { alt: true, ..NONE }, true),
        (Some(Edit::Move { motion: Motion::WordRight, extend: false }), Outcome::Consumed)
    );
    assert_eq!(key(false, &Key::Named(NamedKey::Tab), None, NONE, false), (None, Outcome::Traverse));
    assert_eq!(key(false, &Key::Named(NamedKey::Enter), None, NONE, false), (None, Outcome::Submit));
    assert_eq!(key(false, &Key::Named(NamedKey::Escape), None, NONE, false), (None, Outcome::Cancel));
}

#[test]
fn deletion_follows_the_word_and_line_modifiers() {
    assert_eq!(
        key(false, &Key::Named(NamedKey::Backspace), None, NONE, false),
        (Some(Edit::Delete { backwards: true, word: false, edge: None }), Outcome::Consumed)
    );
    assert_eq!(
        key(false, &Key::Named(NamedKey::Delete), None, CTRL, false),
        (Some(Edit::Delete { backwards: false, word: true, edge: None }), Outcome::Consumed)
    );
    assert_eq!(
        key(false, &Key::Named(NamedKey::Backspace), None, CMD, true),
        (Some(Edit::Delete { backwards: true, word: false, edge: Some(Motion::Start) }), Outcome::Consumed)
    );
}

#[test]
fn typing_needs_no_shortcut_modifier() {
    assert_eq!(key(false, &ch("é"), Some("é"), NONE, false), (Some(Edit::Type("é".into())), Outcome::Consumed));
    assert_eq!(key(false, &ch("k"), Some("k"), CMD, false), (None, Outcome::Consumed));
    assert_eq!(key(false, &Key::Named(NamedKey::Other), None, NONE, false), (None, Outcome::Consumed));
}

#[test]
fn an_open_list_owns_its_keys() {
    assert_eq!(list_key(&Key::Named(NamedKey::ArrowUp), false), ListKey::Step(false));
    assert_eq!(list_key(&Key::Named(NamedKey::ArrowDown), false), ListKey::Step(true));
    assert_eq!(list_key(&Key::Named(NamedKey::Enter), false), ListKey::Commit);
    assert_eq!(list_key(&Key::Named(NamedKey::Escape), false), ListKey::Close);
    assert_eq!(list_key(&Key::Named(NamedKey::Tab), false), ListKey::CloseAndPass);
    // An unmodified `q` with the list open does not quit.
    assert_eq!(list_key(&ch("q"), false), ListKey::Swallow);
    assert_eq!(list_key(&ch("q"), true), ListKey::Pass);
}

#[test]
fn arrows_move_the_highlight_and_enter_commits_it() {
    // Down steps to the next option and up steps back.
    assert_eq!(list_key(&Key::Named(NamedKey::ArrowDown), false), ListKey::Step(true));
    let mut highlight = 0;
    highlight = step_highlight(highlight, true, 3);
    assert_eq!(highlight, 1);
    highlight = step_highlight(highlight, true, 3);
    assert_eq!(highlight, 2);
    highlight = step_highlight(highlight, false, 3);
    assert_eq!(highlight, 1);
    // Enter commits the option under the keyboard.
    assert_eq!(list_key(&Key::Named(NamedKey::Enter), false), ListKey::Commit);
}

#[test]
fn an_arrow_under_an_open_list_stays_in_the_list() {
    assert_eq!(list_key(&Key::Named(NamedKey::ArrowUp), false), ListKey::Step(false));
    assert_eq!(step_highlight(0, false, 3), 2);
    assert_eq!(step_highlight(2, true, 3), 0);
}

#[test]
fn escape_closes_without_committing_and_tab_reaches_the_page() {
    assert_eq!(list_key(&Key::Named(NamedKey::Escape), false), ListKey::Close);
    assert_eq!(list_key(&Key::Named(NamedKey::Tab), false), ListKey::CloseAndPass);
}

#[test]
fn an_unmodified_q_with_the_list_open_does_not_quit() {
    assert_eq!(list_key(&Key::Character("q".into()), false), ListKey::Swallow);
}
