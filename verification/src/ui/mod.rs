//! What the screen is made of and what each key does.
pub mod colors;
pub mod theme;
pub mod markdown;
pub mod nav;
pub mod header_image;
pub mod editor;

use vstd::prelude::*;
use crate::app::{App, ViewMode, toggled, quitted, moved, descended, ascended, opened_focused, can_move};

verus! {

/// A key press, as far as the keymap tells keys apart.
#[derive(Debug, Clone, Copy, PartialEq, Eq, Structural)]
pub enum Key {
    Char(char),
    Esc,
    Tab,
    Enter,
    Other,
}

/// A share of the screen along one axis.
#[derive(Debug, Clone, Copy, PartialEq, Eq, Structural)]
pub enum Constraint {
    Percentage(u16),
    Min(u16),
    Length(u16),
}

/// How the navigation pane and the editor share the width: ego mode and a
/// single column give the editor most of it; two columns give the navigation
/// most of it; three or more give it all of it.
pub open spec fn split_spec(mode: ViewMode, columns: int) -> (Constraint, Constraint) {
    match mode {
        ViewMode::Ego => (Constraint::Percentage(30), Constraint::Percentage(70)),
        ViewMode::Spatial => if columns == 1 {
            (Constraint::Percentage(30), Constraint::Percentage(70))
        } else if columns == 2 {
            (Constraint::Percentage(60), Constraint::Percentage(40))
        } else {
            (Constraint::Min(0), Constraint::Length(0))
        },
    }
}

/// The widths of the navigation pane and of the editor.
pub fn nav_editor_split(app: &App) -> (r: (Constraint, Constraint))
    ensures
        r == split_spec(app.mode, app.columns@.len() as int),
{
    match app.mode {
        ViewMode::Ego => (Constraint::Percentage(30), Constraint::Percentage(70)),
        ViewMode::Spatial => {
            let n = app.columns.len();
            if n == 1 {
                (Constraint::Percentage(30), Constraint::Percentage(70))
            } else if n == 2 {
                (Constraint::Percentage(60), Constraint::Percentage(40))
            } else {
                (Constraint::Min(0), Constraint::Length(0))
            }
        },
    }
}

/// What a key press does to the state `a`, giving `b`: `q` and Esc quit, Tab
/// switches the view, `j` and `k` move the focus down and up, `l` and `h` go
/// one level deeper and one level up, Enter opens the focused note; any
/// other key changes nothing.
pub open spec fn key_effect(a: App, b: App, key: Key) -> bool {
    if key == Key::Char('q') || key == Key::Esc {
        quitted(a, b)
    } else if key == Key::Tab {
        toggled(a, b)
    } else if key == Key::Char('j') {
        moved(a, b, 1isize)
    } else if key == Key::Char('k') {
        moved(a, b, -1isize)
    } else if key == Key::Char('l') {
        descended(a, b)
    } else if key == Key::Char('h') {
        ascended(a, b)
    } else if key == Key::Enter {
        opened_focused(a, b)
    } else {
        b == a
    }
}

/// Applies a key press to the state.
pub fn handle_key(app: &mut App, key: Key)
    requires
        old(app).wf(),
        key == Key::Char('j') ==> can_move(*old(app), 1isize),
        key == Key::Char('k') ==> can_move(*old(app), -1isize),
    ensures
        key_effect(*old(app), *final(app), key),
{
    match key {
        Key::Char('q') | Key::Esc => app.quit(),
        Key::Tab => app.toggle_mode(),
        Key::Char('j') => app.move_focus(1),
        Key::Char('k') => app.move_focus(-1),
        Key::Char('l') => app.descend(),
        Key::Char('h') => app.ascend(),
        Key::Enter => app.open_focused(),
        _ => {},
    }
}

/// Switching the view twice gives back the state it started from.
pub proof fn lemma_toggle_twice(a: App, b: App, c: App)
    requires
        toggled(a, b),
        toggled(b, c),
    ensures
        c == a,
{
}

/// Quitting is idempotent: a second quit changes nothing more.
pub proof fn lemma_quit_twice(a: App, b: App, c: App)
    requires
        quitted(a, b),
        quitted(b, c),
    ensures
        c == b,
{
}

/// Every key keeps the state well formed: each node index held names a note
/// and no note is unfolded twice.
pub proof fn lemma_keys_keep_state_valid(a: App, b: App, key: Key)
    requires
        a.wf(),
        key_effect(a, b, key),
    ensures
        b.wf(),
{
}

/// After moving the focus in a non-empty list, the focus is on one of its
/// entries: an outline line in ego mode, an item of the last column in
/// spatial mode.
pub proof fn lemma_moved_focus_in_range(a: App, b: App, delta: isize)
    requires
        can_move(a, delta),
        moved(a, b, delta),
    ensures
        a.mode == ViewMode::Ego && a.ego_visible_spec().len() > 0 ==> b.ego_focus < a.ego_visible_spec().len(),
        a.mode == ViewMode::Spatial && a.columns@.len() > 0 && a.columns@.last().items@.len() > 0 ==> b.columns@.last().focus < b.columns@.last().items@.len(),
{
}

/// In spatial mode, going one level up right after a step down that opened
/// a column gives back the columns from before.
pub proof fn lemma_descend_then_ascend(a: App, b: App, c: App)
    requires
        a.mode == ViewMode::Spatial,
        descended(a, b),
        b.columns@.len() > a.columns@.len(),
        ascended(b, c),
    ensures
        c.columns@ == a.columns@,
        c.mode == a.mode,
        c.active == a.active,
        c.expanded == a.expanded,
{
    assert(c.columns@ =~= a.columns@);
}

} // verus!
