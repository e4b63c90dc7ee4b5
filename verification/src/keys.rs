//! Keyboard policy: what a key does in a focused text field, and what it does
//! while an option list is open. The field itself and the list are the
//! caller's; these functions only decide.
use vstd::prelude::*;

verus! {

/// A named key the policy distinguishes.
#[derive(Clone, Copy, Debug, PartialEq, Eq, Structural)]
pub enum NamedKey {
    Escape,
    ArrowLeft,
    ArrowRight,
    ArrowUp,
    ArrowDown,
    Home,
    End,
    Tab,
    Enter,
    Backspace,
    Delete,
    /// Any other named key.
    Other,
}

/// A key press: a character the layout produced, or a named key.
pub enum Key {
    Character(String),
    Named(NamedKey),
}

/// The modifiers held during a key press.
#[derive(Clone, Copy, Debug, PartialEq, Eq, Structural)]
pub struct Mods {
    pub control: bool,
    pub alt: bool,
    pub shift: bool,
    /// The Command key on macOS, the logo key elsewhere.
    pub super_key: bool,
}

/// Where a cursor motion goes.
#[derive(Clone, Copy, Debug, PartialEq, Eq, Structural)]
pub enum Motion {
    Left,
    Right,
    WordLeft,
    WordRight,
    Start,
    End,
}

/// What the field does with a key.
#[derive(Debug, PartialEq, Eq)]
pub enum Edit {
    /// Abandons the composition in progress.
    CancelCompose,
    SelectAll,
    /// Copies the selection, when there is one.
    Copy,
    /// Copies the selection and, when the copy worked, deletes it as an edit
    /// of its own.
    Cut,
    /// Inserts the clipboard's text as an edit of its own.
    Paste,
    /// Undoes the last edit, or redoes it.
    Undo { redo: bool },
    /// Moves the cursor, extending the selection with Shift.
    Move { motion: Motion, extend: bool },
    /// Deletes backwards or forwards, by word with the word modifier; `edge`
    /// first extends the selection to the start or end.
    Delete { backwards: bool, word: bool, edge: Option<Motion> },
    /// Inserts typed text.
    Type(String),
}

/// An edit by what it does, the typed text by its characters.
pub enum EditView {
    CancelCompose,
    SelectAll,
    Copy,
    Cut,
    Paste,
    Undo { redo: bool },
    Move { motion: Motion, extend: bool },
    Delete { backwards: bool, word: bool, edge: Option<Motion> },
    Type(Seq<char>),
}

impl View for Edit {
    type V = EditView;

    open spec fn view(&self) -> EditView {
        match self {
            Edit::CancelCompose => EditView::CancelCompose,
            Edit::SelectAll => EditView::SelectAll,
            Edit::Copy => EditView::Copy,
            Edit::Cut => EditView::Cut,
            Edit::Paste => EditView::Paste,
            Edit::Undo { redo } => EditView::Undo { redo: *redo },
            Edit::Move { motion, extend } => EditView::Move { motion: *motion, extend: *extend },
            Edit::Delete { backwards, word, edge } => EditView::Delete {
                backwards: *backwards,
                word: *word,
                edge: *edge,
            },
            Edit::Type(t) => EditView::Type(t@),
        }
    }
}

/// Where the key goes after the field.
#[derive(Clone, Copy, Debug, PartialEq, Eq, Structural)]
pub enum Outcome {
    /// The field took it.
    Consumed,
    /// An application shortcut, for the reader to answer.
    Application,
    /// Moves focus to the next control.
    Traverse,
    Submit,
    Cancel,
}

/// The platform's primary shortcut modifier: Command on macOS, Control
/// without Alt elsewhere (Control with Alt is AltGr).
pub open spec fn primary(m: Mods, mac: bool) -> bool {
    if mac {
        m.super_key
    } else {
        m.control && !m.alt
    }
}

/// The modifier that moves and deletes by word: Option on macOS, Control
/// without Alt elsewhere.
pub open spec fn by_word(m: Mods, mac: bool) -> bool {
    if mac {
        m.alt
    } else {
        m.control && !m.alt
    }
}

/// A one-character text, read without regard to ASCII case.
pub open spec fn letter(s: Seq<char>) -> Option<char> {
    if s.len() == 1 {
        Some(crate::cli::ascii_lower(s[0]))
    } else {
        None
    }
}

/// What a primary-modifier chord with character `c` does.
pub open spec fn chord(c: Option<char>, shift: bool, mac: bool) -> (Option<EditView>, Outcome) {
    match c {
        Some('a') => (Some(EditView::SelectAll), Outcome::Consumed),
        Some('c') => (Some(EditView::Copy), Outcome::Consumed),
        Some('x') => (Some(EditView::Cut), Outcome::Consumed),
        Some('v') => (Some(EditView::Paste), Outcome::Consumed),
        Some('z') => (Some(EditView::Undo { redo: shift }), Outcome::Consumed),
        Some('y') if !mac => (Some(EditView::Undo { redo: true }), Outcome::Consumed),
        Some('q') | Some('o') | Some('e') | Some(',') | Some('t') => (None, Outcome::Application),
        _ => (None, Outcome::Consumed),
    }
}

/// The motion an arrow, Home or End key asks for.
pub open spec fn motion_of(k: NamedKey, m: Mods, mac: bool) -> Option<Motion> {
    match k {
        NamedKey::ArrowLeft => Some(
            if mac && primary(m, mac) {
                Motion::Start
            } else if by_word(m, mac) {
                Motion::WordLeft
            } else {
                Motion::Left
            },
        ),
        NamedKey::ArrowRight => Some(
            if mac && primary(m, mac) {
                Motion::End
            } else if by_word(m, mac) {
                Motion::WordRight
            } else {
                Motion::Right
            },
        ),
        NamedKey::Home => Some(Motion::Start),
        NamedKey::End => Some(Motion::End),
        _ => None,
    }
}

/// What a key does in a focused text field. During a composition every key
/// belongs to the input method, and Escape abandons it. A primary chord is a
/// field shortcut or, for the reader's own, the application's. Arrows, Home
/// and End move; Tab, Enter and Escape leave the field; Backspace and Delete
/// delete; anything else types its text unless a shortcut modifier is held.
pub open spec fn field_key(
    composing: bool,
    key: Key,
    text: Option<Seq<char>>,
    m: Mods,
    mac: bool,
) -> (Option<EditView>, Outcome) {
    if composing {
        (
            if key == Key::Named(NamedKey::Escape) {
                Some(EditView::CancelCompose)
            } else {
                None
            },
            Outcome::Consumed,
        )
    } else if primary(m, mac) && key is Character {
        chord(letter(key->Character_0@), m.shift, mac)
    } else {
        match key {
            Key::Named(k) => match motion_of(k, m, mac) {
                Some(motion) => (Some(EditView::Move { motion, extend: m.shift }), Outcome::Consumed),
                None => match k {
                    NamedKey::Tab => (None, Outcome::Traverse),
                    NamedKey::Enter => (None, Outcome::Submit),
                    NamedKey::Escape => (None, Outcome::Cancel),
                    NamedKey::Backspace | NamedKey::Delete => {
                        let backwards = k == NamedKey::Backspace;
                        (
                            Some(
                                EditView::Delete {
                                    backwards,
                                    word: by_word(m, mac),
                                    edge: if mac && primary(m, mac) {
                                        Some(
                                            if backwards {
                                                Motion::Start
                                            } else {
                                                Motion::End
                                            },
                                        )
                                    } else {
                                        None
                                    },
                                },
                            ),
                            Outcome::Consumed,
                        )
                    },
                    _ => typed(text, m, mac),
                },
            },
            Key::Character(_) => typed(text, m, mac),
        }
    }
}

/// Text the key produced, typed unless a shortcut modifier is held.
pub open spec fn typed(text: Option<Seq<char>>, m: Mods, mac: bool) -> (Option<EditView>, Outcome) {
    if !primary(m, mac) && !m.super_key {
        match text {
            Some(t) => (Some(EditView::Type(t)), Outcome::Consumed),
            None => (None, Outcome::Consumed),
        }
    } else {
        (None, Outcome::Consumed)
    }
}

fn lower_letter(s: &str) -> (r: Option<char>)
    ensures
        r == letter(s@),
{
    if s.unicode_len() != 1 {
        return None;
    }
    let c = s.get_char(0);
    if 'A' <= c && c <= 'Z' {
        Some(lower_ascii(c))
    } else {
        Some(c)
    }
}

fn lower_ascii(c: char) -> (r: char)
    requires
        'A' <= c <= 'Z',
    ensures
        r == crate::cli::ascii_lower(c),
{
    if c == 'A' { 'a' }
    else if c == 'B' { 'b' }
    else if c == 'C' { 'c' }
    else if c == 'D' { 'd' }
    else if c == 'E' { 'e' }
    else if c == 'F' { 'f' }
    else if c == 'G' { 'g' }
    else if c == 'H' { 'h' }
    else if c == 'I' { 'i' }
    else if c == 'J' { 'j' }
    else if c == 'K' { 'k' }
    else if c == 'L' { 'l' }
    else if c == 'M' { 'm' }
    else if c == 'N' { 'n' }
    else if c == 'O' { 'o' }
    else if c == 'P' { 'p' }
    else if c == 'Q' { 'q' }
    else if c == 'R' { 'r' }
    else if c == 'S' { 's' }
    else if c == 'T' { 't' }
    else if c == 'U' { 'u' }
    else if c == 'V' { 'v' }
    else if c == 'W' { 'w' }
    else if c == 'X' { 'x' }
    else if c == 'Y' { 'y' }
    else { 'z' }
}

/// The decision for one key in a focused text field: what the field does
/// with it, and where it goes next. `text` is what the key typed, if
/// anything.
pub fn key(composing: bool, pressed: &Key, text: Option<&str>, mods: Mods, mac: bool) -> (r: (
    Option<Edit>,
    Outcome,
))
    ensures
        (
            match r.0 {
                Some(e) => Some(e@),
                None => None,
            },
            r.1,
        ) == field_key(
            composing,
            *pressed,
            match text {
                Some(t) => Some(t@),
                None => None,
            },
            mods,
            mac,
        ),
{
    let primary = if mac {
        mods.super_key
    } else {
        mods.control && !mods.alt
    };
    let word = if mac {
        mods.alt
    } else {
        mods.control && !mods.alt
    };
    let shift = mods.shift;
    if composing {
        let escape = match pressed {
            Key::Named(NamedKey::Escape) => true,
            _ => false,
        };
        return (
            if escape {
                Some(Edit::CancelCompose)
            } else {
                None
            },
            Outcome::Consumed,
        );
    }
    if primary {
        if let Key::Character(c) = pressed {
            let edit = match lower_letter(c.as_str()) {
                Some('a') => (Some(Edit::SelectAll), Outcome::Consumed),
                Some('c') => (Some(Edit::Copy), Outcome::Consumed),
                Some('x') => (Some(Edit::Cut), Outcome::Consumed),
                Some('v') => (Some(Edit::Paste), Outcome::Consumed),
                Some('z') => (Some(Edit::Undo { redo: shift }), Outcome::Consumed),
                Some('y') if !mac => (Some(Edit::Undo { redo: true }), Outcome::Consumed),
                Some('q') | Some('o') | Some('e') | Some(',') | Some('t') => (
                    None,
                    Outcome::Application,
                ),
                _ => (None, Outcome::Consumed),
            };
            return edit;
        }
    }
    let named = match pressed {
        Key::Named(k) => Some(*k),
        Key::Character(_) => None,
    };
    if let Some(k) = named {
        let motion = match k {
            NamedKey::ArrowLeft => Some(
                if mac && primary {
                    Motion::Start
                } else if word {
                    Motion::WordLeft
                } else {
                    Motion::Left
                },
            ),
            NamedKey::ArrowRight => Some(
                if mac && primary {
                    Motion::End
                } else if word {
                    Motion::WordRight
                } else {
                    Motion::Right
                },
            ),
            NamedKey::Home => Some(Motion::Start),
            NamedKey::End => Some(Motion::End),
            _ => None,
        };
        if let Some(motion) = motion {
            return (Some(Edit::Move { motion, extend: shift }), Outcome::Consumed);
        }
        match k {
            NamedKey::Tab => {
                return (None, Outcome::Traverse);
            },
            NamedKey::Enter => {
                return (None, Outcome::Submit);
            },
            NamedKey::Escape => {
                return (None, Outcome::Cancel);
            },
            NamedKey::Backspace | NamedKey::Delete => {
                let backwards = k == NamedKey::Backspace;
                let edge = if mac && primary {
                    Some(
                        if backwards {
                            Motion::Start
                        } else {
                            Motion::End
                        },
                    )
                } else {
                    None
                };
                return (Some(Edit::Delete { backwards, word, edge }), Outcome::Consumed);
            },
            _ => {},
        }
    }
    if !primary && !mods.super_key {
        if let Some(t) = text {
            return (Some(Edit::Type(t.to_owned())), Outcome::Consumed);
        }
    }
    (None, Outcome::Consumed)
}

/// Outside a composition, Home goes to the start of the field and End to its
/// end, whatever modifiers are held; Shift extends the selection.
pub proof fn home_and_end_go_to_the_edges(text: Option<Seq<char>>, m: Mods, mac: bool)
    ensures
        field_key(false, Key::Named(NamedKey::Home), text, m, mac) == (
            Some(EditView::Move { motion: Motion::Start, extend: m.shift }),
            Outcome::Consumed,
        ),
        field_key(false, Key::Named(NamedKey::End), text, m, mac) == (
            Some(EditView::Move { motion: Motion::End, extend: m.shift }),
            Outcome::Consumed,
        ),
{
}

/// Outside a composition the arrows move the cursor one way each: Left
/// never moves right, Right never moves left; an unmodified arrow moves by
/// one character; Shift extends the selection.
pub proof fn arrows_move_their_own_way(text: Option<Seq<char>>, m: Mods, mac: bool)
    ensures
        field_key(false, Key::Named(NamedKey::ArrowLeft), text, m, mac) matches (
            Some(EditView::Move { motion, extend }),
            Outcome::Consumed,
        ) && extend == m.shift && (motion == Motion::Left || motion == Motion::WordLeft || motion
            == Motion::Start),
        field_key(false, Key::Named(NamedKey::ArrowRight), text, m, mac) matches (
            Some(EditView::Move { motion, extend }),
            Outcome::Consumed,
        ) && extend == m.shift && (motion == Motion::Right || motion == Motion::WordRight || motion
            == Motion::End),
        !m.control && !m.alt && !m.super_key ==> field_key(
            false,
            Key::Named(NamedKey::ArrowLeft),
            text,
            m,
            mac,
        ) == (Some(EditView::Move { motion: Motion::Left, extend: m.shift }), Outcome::Consumed)
            && field_key(false, Key::Named(NamedKey::ArrowRight), text, m, mac) == (
            Some(EditView::Move { motion: Motion::Right, extend: m.shift }),
            Outcome::Consumed,
        ),
{
}

/// Outside a composition Tab leaves the field for the next control, Enter
/// submits and Escape cancels, and none of them edits the text.
pub proof fn leaving_keys_do_not_edit(text: Option<Seq<char>>, m: Mods, mac: bool)
    ensures
        field_key(false, Key::Named(NamedKey::Tab), text, m, mac) == (
            None::<EditView>,
            Outcome::Traverse,
        ),
        field_key(false, Key::Named(NamedKey::Enter), text, m, mac) == (
            None::<EditView>,
            Outcome::Submit,
        ),
        field_key(false, Key::Named(NamedKey::Escape), text, m, mac) == (
            None::<EditView>,
            Outcome::Cancel,
        ),
{
}

/// Backspace deletes backwards and Delete forwards; with no modifier they
/// delete one character and do not reach for an edge.
pub proof fn deletion_goes_the_keys_way(text: Option<Seq<char>>, m: Mods, mac: bool)
    ensures
        field_key(false, Key::Named(NamedKey::Backspace), text, m, mac) matches (
            Some(EditView::Delete { backwards, edge, .. }),
            Outcome::Consumed,
        ) && backwards && (edge is None || edge == Some(Motion::Start)),
        field_key(false, Key::Named(NamedKey::Delete), text, m, mac) matches (
            Some(EditView::Delete { backwards, edge, .. }),
            Outcome::Consumed,
        ) && !backwards && (edge is None || edge == Some(Motion::End)),
        !m.control && !m.alt && !m.super_key ==> field_key(
            false,
            Key::Named(NamedKey::Backspace),
            text,
            m,
            mac,
        ) == (Some(EditView::Delete { backwards: true, word: false, edge: None }), Outcome::Consumed),
{
}

/// During a composition every key belongs to the input method: nothing is
/// typed, moved or left, and only Escape does anything, abandoning it.
pub proof fn a_composition_owns_every_key(key: Key, text: Option<Seq<char>>, m: Mods, mac: bool)
    ensures
        field_key(true, key, text, m, mac).1 == Outcome::Consumed,
        field_key(true, key, text, m, mac).0 == if key == Key::Named(NamedKey::Escape) {
            Some(EditView::CancelCompose)
        } else {
            None
        },
{
}

/// A character typed with no modifier but Shift is inserted as it came.
pub proof fn plain_text_is_typed(c: String, t: Seq<char>, shift: bool, mac: bool)
    ensures
        field_key(
            false,
            Key::Character(c),
            Some(t),
            Mods { control: false, alt: false, shift, super_key: false },
            mac,
        ) == (Some(EditView::Type(t)), Outcome::Consumed),
{
}

/// With the primary modifier, A selects all, C copies, X cuts, V pastes and
/// Z undoes (redoes with Shift), in either case of the letter; Q is the
/// reader's own shortcut.
pub proof fn the_primary_chords(c: String, m: Mods, mac: bool, t: Option<Seq<char>>)
    requires
        primary(m, mac),
    ensures
        c@ == seq!['a'] || c@ == seq!['A'] ==> field_key(false, Key::Character(c), t, m, mac) == (
            Some(EditView::SelectAll),
            Outcome::Consumed,
        ),
        c@ == seq!['c'] || c@ == seq!['C'] ==> field_key(false, Key::Character(c), t, m, mac) == (
            Some(EditView::Copy),
            Outcome::Consumed,
        ),
        c@ == seq!['x'] || c@ == seq!['X'] ==> field_key(false, Key::Character(c), t, m, mac) == (
            Some(EditView::Cut),
            Outcome::Consumed,
        ),
        c@ == seq!['v'] || c@ == seq!['V'] ==> field_key(false, Key::Character(c), t, m, mac) == (
            Some(EditView::Paste),
            Outcome::Consumed,
        ),
        c@ == seq!['z'] || c@ == seq!['Z'] ==> field_key(false, Key::Character(c), t, m, mac) == (
            Some(EditView::Undo { redo: m.shift }),
            Outcome::Consumed,
        ),
        c@ == seq!['q'] ==> field_key(false, Key::Character(c), t, m, mac) == (
            None::<EditView>,
            Outcome::Application,
        ),
        field_key(false, Key::Character(c), t, m, mac).0 != Some(EditView::Type(c@)),
{
}

/// What a key does while an option list is open.
#[derive(Clone, Copy, Debug, PartialEq, Eq, Structural)]
pub enum ListKey {
    /// Moves the highlight one option up (`false`) or down (`true`).
    Step(bool),
    /// Commits the highlighted option, or closes the list when none is.
    Commit,
    /// Closes the list.
    Close,
    /// Closes the list and hands the key to the page, whose traversal goes on
    /// from the chooser.
    CloseAndPass,
    /// The key is not the list's: a chord with Control belongs to the reader.
    Pass,
    /// The list swallows the key: nothing behind it answers while it is up.
    Swallow,
}

/// How an open list answers a key.
pub open spec fn list_key_of(key: Key, control: bool) -> ListKey {
    match key {
        Key::Named(NamedKey::ArrowUp) => ListKey::Step(false),
        Key::Named(NamedKey::ArrowDown) => ListKey::Step(true),
        Key::Named(NamedKey::Enter) => ListKey::Commit,
        Key::Named(NamedKey::Escape) => ListKey::Close,
        Key::Named(NamedKey::Tab) => ListKey::CloseAndPass,
        _ => if control {
            ListKey::Pass
        } else {
            ListKey::Swallow
        },
    }
}

/// An open list steps with the arrows, commits with Enter, closes with
/// Escape and hands Tab on as it closes, whether or not Control is held; any
/// other key is swallowed unless Control makes it the reader's.
pub proof fn an_open_list_answers_its_keys(c: String, k: NamedKey, control: bool)
    ensures
        list_key_of(Key::Named(NamedKey::ArrowUp), control) == ListKey::Step(false),
        list_key_of(Key::Named(NamedKey::ArrowDown), control) == ListKey::Step(true),
        list_key_of(Key::Named(NamedKey::Enter), control) == ListKey::Commit,
        list_key_of(Key::Named(NamedKey::Escape), control) == ListKey::Close,
        list_key_of(Key::Named(NamedKey::Tab), control) == ListKey::CloseAndPass,
        !taken(list_key_of(Key::Named(NamedKey::Tab), control)),
        taken(list_key_of(Key::Character(c), control)) <==> !control,
        k != NamedKey::ArrowUp && k != NamedKey::ArrowDown && k != NamedKey::Enter && k
            != NamedKey::Escape && k != NamedKey::Tab ==> list_key_of(Key::Named(k), control)
            == if control {
            ListKey::Pass
        } else {
            ListKey::Swallow
        },
{
}

/// The decision for one key while an option list is open.
pub fn list_key(key: &Key, control: bool) -> (r: ListKey)
    ensures
        r == list_key_of(*key, control),
{
    match key {
        Key::Named(NamedKey::ArrowUp) => ListKey::Step(false),
        Key::Named(NamedKey::ArrowDown) => ListKey::Step(true),
        Key::Named(NamedKey::Enter) => ListKey::Commit,
        Key::Named(NamedKey::Escape) => ListKey::Close,
        Key::Named(NamedKey::Tab) => ListKey::CloseAndPass,
        _ => if control {
            ListKey::Pass
        } else {
            ListKey::Swallow
        },
    }
}

/// The highlight after one arrow among `options` options: it moves one
/// option down or up and wraps round at either end, so an arrow never leaves
/// the list.
pub fn step_highlight(highlight: usize, down: bool, options: usize) -> (r: usize)
    requires
        highlight < options,
    ensures
        r < options,
        r == (if down {
            (highlight + 1) % (options as int)
        } else {
            (highlight + options - 1) % (options as int)
        }),
{
    proof {
        let (h, n) = (highlight as int, options as int);
        if h + 1 == n {
            assert((h + 1) % n == 0) by (nonlinear_arith)
                requires
                    h + 1 == n,
                    h >= 0,
            ;
        } else {
            assert((h + 1) % n == h + 1) by (nonlinear_arith)
                requires
                    0 <= h + 1 < n,
            ;
        }
        if h == 0 {
            assert((h + n - 1) % n == n - 1) by (nonlinear_arith)
                requires
                    h == 0,
                    n > 0,
            ;
        } else {
            assert((h + n - 1) % n == h - 1) by (nonlinear_arith)
                requires
                    0 < h < n,
            ;
        }
    }
    if down {
        if highlight + 1 == options {
            0
        } else {
            highlight + 1
        }
    } else if highlight == 0 {
        options - 1
    } else {
        highlight - 1
    }
}

/// Whether the list took the key, so the page behind it never sees it.
pub open spec fn taken(k: ListKey) -> bool {
    !(k == ListKey::CloseAndPass || k == ListKey::Pass)
}

} // verus!
