//! The text of the navigation pane and of the status bar.
use vstd::prelude::*;
use crate::app::{App, RefKind, ViewMode, EgoEntry, EntryView, entry_view, entry_views, expanded_has, valid_node};
use crate::model::title_of;
use crate::store::node_index_value;
use crate::text::{push_char, push_str};

verus! {

/// The indentation of an outline line: none for the root, two spaces one
/// level down, and below that two spaces per level above it and a branch.
pub open spec fn indent_spec(depth: int) -> Seq<char> {
    if depth <= 0 {
        seq![]
    } else if depth == 1 {
        seq![' ', ' ']
    } else {
        Seq::new((2 * (depth - 1)) as nat, |i: int| ' ') + seq!['├', '─']
    }
}

/// The fold marker: a dot for the root, an open triangle for an unfolded
/// line, a closed one otherwise.
pub open spec fn fold_icon_spec(depth: int, expanded: bool) -> Seq<char> {
    if depth == 0 {
        seq!['●', ' ']
    } else if expanded {
        seq!['▼', ' ']
    } else {
        seq!['▶', ' ']
    }
}

/// The arrow that says how a line relates to the line it hangs under.
pub open spec fn badge_spec(category: Option<RefKind>) -> Seq<char> {
    match category {
        None => seq![],
        Some(RefKind::Conceptual) => seq!['-', '>', ' '],
        Some(RefKind::Structure) => seq!['=', '>', ' '],
        Some(RefKind::Backlink) => seq!['<', '-', ' '],
        Some(RefKind::StructuralBacklink) => seq!['<', '=', ' '],
    }
}

/// The text of an outline line.
pub open spec fn ego_line_spec(depth: int, expanded: bool, category: Option<RefKind>, title: Seq<char>) -> Seq<char> {
    indent_spec(depth) + fold_icon_spec(depth, expanded) + badge_spec(category) + title
}

fn push_indent(s: &mut String, depth: usize)
    ensures
        final(s)@ == old(s)@ + indent_spec(depth as int),
{
    let ghost s0 = s@;
    if depth == 0 {
        assert(s@ =~= s0 + indent_spec(0));
    } else if depth == 1 {
        push_char(s, ' ');
        push_char(s, ' ');
        assert(s@ =~= s0 + indent_spec(1));
    } else {
        let mut k: usize = 1;
        while k < depth
            invariant
                1 <= k <= depth,
                s@ == s0 + Seq::new((2 * (k - 1)) as nat, |i: int| ' '),
            decreases depth - k,
        {
            push_char(s, ' ');
            push_char(s, ' ');
            k += 1;
            assert(s@ =~= s0 + Seq::new((2 * (k - 1)) as nat, |i: int| ' '));
        }
        push_char(s, '├');
        push_char(s, '─');
        assert(s@ =~= s0 + indent_spec(depth as int));
    }
}

/// The text of the outline line of `entry`, whose note has `title`.
pub fn ego_line(entry: &EgoEntry, expanded: bool, title: &str) -> (r: String)
    ensures
        r@ == ego_line_spec(entry.depth as int, expanded, entry.category, title@),
{
    let mut s = String::new();
    push_indent(&mut s, entry.depth);
    if entry.depth == 0 {
        push_char(&mut s, '●');
    } else if expanded {
        push_char(&mut s, '▼');
    } else {
        push_char(&mut s, '▶');
    }
    push_char(&mut s, ' ');
    match entry.category {
        None => {},
        Some(RefKind::Conceptual) => {
            push_char(&mut s, '-');
            push_char(&mut s, '>');
            push_char(&mut s, ' ');
        },
        Some(RefKind::Structure) => {
            push_char(&mut s, '=');
            push_char(&mut s, '>');
            push_char(&mut s, ' ');
        },
        Some(RefKind::Backlink) => {
            push_char(&mut s, '<');
            push_char(&mut s, '-');
            push_char(&mut s, ' ');
        },
        Some(RefKind::StructuralBacklink) => {
            push_char(&mut s, '<');
            push_char(&mut s, '=');
            push_char(&mut s, ' ');
        },
    }
    push_str(&mut s, title);
    assert(s@ =~= ego_line_spec(entry.depth as int, expanded, entry.category, title@));
    s
}

/// The text of the `i`-th outline line of `app`, and whether it is focused.
pub open spec fn ego_row_spec(app: App, i: int) -> (Seq<char>, bool) {
    let e = app.ego_visible_spec()[i];
    (ego_line_spec(e.1, expanded_has(app.expanded@, e.0), e.2, title_of(app.index.notes()[e.0])), i == app.ego_focus)
}

/// The lines of the ego outline: each line's text and whether it is the
/// focused one.
pub fn ego_lines(app: &App) -> (r: Vec<(String, bool)>)
    requires
        app.wf(),
    ensures
        r@.len() == app.ego_visible_spec().len(),
        forall|i: int| 0 <= i < r@.len() ==> (#[trigger] r@[i].0@, r@[i].1) == ego_row_spec(*app, i),
{
    let entries = app.ego_visible();
    let mut out: Vec<(String, bool)> = Vec::new();
    let mut i: usize = 0;
    while i < entries.len()
        invariant
            i <= entries@.len(),
            entry_views(entries@) == app.ego_visible_spec(),
            forall|k: int| 0 <= k < entries@.len() ==> valid_node(#[trigger] entries@[k].node, app.n()),
            out@.len() == i,
            forall|k: int| 0 <= k < i ==> (#[trigger] out@[k].0@, out@[k].1) == ego_row_spec(*app, k),
        decreases entries.len() - i,
    {
        let e = &entries[i];
        assert(entry_views(entries@)[i as int] == entry_view(entries@[i as int]));
        let expanded = app.is_expanded(e.node);
        let title = app.index.note(e.node).title();
        let line = ego_line(e, expanded, title);
        out.push((line, i == app.ego_focus));
        i += 1;
    }
    out
}

/// The title over column `i` of spatial mode: `roots` over the first, the
/// focused item of the column before over the others.
pub open spec fn column_header_spec(app: App, i: int) -> Seq<char> {
    if i == 0 {
        seq!['r', 'o', 'o', 't', 's']
    } else {
        let prev = app.columns@[i - 1];
        title_of(app.index.notes()[node_index_value(prev.items@[prev.focus as int])])
    }
}

/// The title over column `i` of spatial mode.
pub fn column_header(app: &App, i: usize) -> (r: String)
    requires
        app.wf(),
        i < app.columns@.len(),
        i > 0 ==> app.columns@[i - 1].focus < app.columns@[i - 1].items@.len(),
    ensures
        r@ == column_header_spec(*app, i as int),
{
    let mut s = String::new();
    if i == 0 {
        push_char(&mut s, 'r');
        push_char(&mut s, 'o');
        push_char(&mut s, 'o');
        push_char(&mut s, 't');
        push_char(&mut s, 's');
        assert(s@ =~= seq!['r', 'o', 'o', 't', 's']);
    } else {
        let prev = &app.columns[i - 1];
        let node = prev.items[prev.focus];
        push_str(&mut s, app.index.note(node).title());
        assert(s@ =~= column_header_spec(*app, i as int));
    }
    s
}

/// The items of column `c` of spatial mode: each item's title and whether it
/// is the focused one.
pub fn column_lines(app: &App, c: usize) -> (r: Vec<(String, bool)>)
    requires
        app.wf(),
        c < app.columns@.len(),
    ensures
        r@.len() == app.columns@[c as int].items@.len(),
        forall|j: int| 0 <= j < r@.len() ==> (#[trigger] r@[j].0@, r@[j].1) == (
            title_of(app.index.notes()[node_index_value(app.columns@[c as int].items@[j])]),
            j == app.columns@[c as int].focus,
        ),
{
    let col = &app.columns[c];
    let mut out: Vec<(String, bool)> = Vec::new();
    let mut j: usize = 0;
    while j < col.items.len()
        invariant
            j <= col.items@.len(),
            *col == app.columns@[c as int],
            app.wf(),
            c < app.columns@.len(),
            out@.len() == j,
            forall|k: int| 0 <= k < j ==> (#[trigger] out@[k].0@, out@[k].1) == (
                title_of(app.index.notes()[node_index_value(col.items@[k])]),
                k == col.focus,
            ),
        decreases col.items.len() - j,
    {
        assert(valid_node(col.items@[j as int], app.n()));
        let mut s = String::new();
        push_str(&mut s, app.index.note(col.items[j]).title());
        assert(s@ =~= title_of(app.index.notes()[node_index_value(col.items@[j as int])]));
        out.push((s, j == col.focus));
        j += 1;
    }
    out
}

/// The name of the view in the status bar.
pub open spec fn mode_label_spec(mode: ViewMode) -> Seq<char> {
    match mode {
        ViewMode::Ego => seq!['E', 'G', 'O'],
        ViewMode::Spatial => seq!['S', 'P', 'A', 'T', 'I', 'A', 'L'],
    }
}

/// The name of the view in the status bar.
pub fn mode_label(mode: ViewMode) -> (r: String)
    ensures
        r@ == mode_label_spec(mode),
{
    let mut s = String::new();
    match mode {
        ViewMode::Ego => {
            push_char(&mut s, 'E');
            push_char(&mut s, 'G');
            push_char(&mut s, 'O');
        },
        ViewMode::Spatial => {
            push_char(&mut s, 'S');
            push_char(&mut s, 'P');
            push_char(&mut s, 'A');
            push_char(&mut s, 'T');
            push_char(&mut s, 'I');
            push_char(&mut s, 'A');
            push_char(&mut s, 'L');
        },
    }
    assert(s@ =~= mode_label_spec(mode));
    s
}

/// The title of the focused note, for the status bar; `None` when nothing
/// is focused.
pub fn active_title(app: &App) -> (r: String)
    requires
        app.wf(),
    ensures
        r@ == match app.focused_spec() {
            Some(f) => title_of(app.index.notes()[f]),
            None => seq!['N', 'o', 'n', 'e'],
        },
{
    let mut s = String::new();
    match app.focused_node() {
        Some(n) => push_str(&mut s, app.index.note(n).title()),
        None => {
            push_char(&mut s, 'N');
            push_char(&mut s, 'o');
            push_char(&mut s, 'n');
            push_char(&mut s, 'e');
        },
    }
    assert(s@ =~= match app.focused_spec() {
        Some(f) => title_of(app.index.notes()[f]),
        None => seq!['N', 'o', 'n', 'e'],
    });
    s
}

/// The key hints of the status bar for each view.
pub open spec fn hints_spec(mode: ViewMode) -> Seq<char> {
    match mode {
        ViewMode::Ego => "j/k: nav | h/l: fold | Enter: root | /:jump | Tab: mode"@,
        ViewMode::Spatial => "j/k: nav | h/l: cols | Enter: open | /: jump | Tab: mode"@,
    }
}

/// The key hints of the status bar.
pub fn hints(mode: ViewMode) -> (r: &'static str)
    ensures
        r@ == hints_spec(mode),
{
    match mode {
        ViewMode::Ego => "j/k: nav | h/l: fold | Enter: root | /:jump | Tab: mode",
        ViewMode::Spatial => "j/k: nav | h/l: cols | Enter: open | /: jump | Tab: mode",
    }
}

} // verus!
