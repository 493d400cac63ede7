//! The graph index: notes as nodes, containment and link edges between them,
//! the id/title/slug lookup tables, the block registry, and what did not resolve.
use vstd::prelude::*;
use petgraph::graph::{Graph, NodeIndex};
use ulid::Ulid;
use crate::model::{Block, Frontmatter, Note, NoteType, opt_view, title_of};
use crate::keys::{KeyIndex, insert_entry, lemma_insert_entry, lookup_in, distinct_keys};
use crate::store::{
    EdgeKind, graph_nodes, graph_edges, node_index_value, node_index, index_of, new_graph,
    add_node, add_edge, node_count, node_weight, out_edges, in_edges, outgoing, incoming, pair_values,
};
use crate::text::{chars_eq, chars_of, views};
use crate::fuzzy::{fuzzy_score, lowercase, lowercase_chars, score_spec, strip_separators, utf8_len, utf8_length, without_separators};
use crate::keys::lemma_lookup_at;

verus! {

/// An edge as values: `(source, target, kind)`.
pub type Edge = (int, int, EdgeKind);

// ---------------------------------------------------------------- resolution

pub open spec fn id_key(n: Note) -> Option<Seq<char>> {
    opt_view(n.frontmatter.id)
}

pub open spec fn title_key(n: Note) -> Option<Seq<char>> {
    Some(title_of(n))
}

pub open spec fn slug_key(n: Note) -> Option<Seq<char>> {
    Some(n.slug@)
}

pub open spec fn id_keyf() -> spec_fn(Note) -> Option<Seq<char>> {
    |n: Note| id_key(n)
}

pub open spec fn title_keyf() -> spec_fn(Note) -> Option<Seq<char>> {
    |n: Note| title_key(n)
}

pub open spec fn slug_keyf() -> spec_fn(Note) -> Option<Seq<char>> {
    |n: Note| slug_key(n)
}

/// The last note whose key is `t`: a later note with the same key shadows an
/// earlier one.
pub open spec fn last_match(notes: Seq<Note>, key: spec_fn(Note) -> Option<Seq<char>>, t: Seq<char>) -> Option<int>
    decreases notes.len(),
{
    if notes.len() == 0 {
        None
    } else if key(notes.last()) == Some(t) {
        Some(notes.len() - 1)
    } else {
        last_match(notes.drop_last(), key, t)
    }
}

/// `a` comes before `b` in character order from position `i` on (a proper
/// prefix comes first).
pub open spec fn chars_less_from(a: Seq<char>, b: Seq<char>, i: int) -> bool
    decreases a.len() - i,
{
    if i < 0 || i >= b.len() {
        false
    } else if i >= a.len() {
        true
    } else if a[i] != b[i] {
        a[i] < b[i]
    } else {
        chars_less_from(a, b, i + 1)
    }
}

/// `a` comes strictly before `b` in character order; for dates written as
/// `YYYY-MM-DD` that is the earlier date.
pub open spec fn chars_less(a: Seq<char>, b: Seq<char>) -> bool {
    chars_less_from(a, b, 0)
}

/// An `updated` value strictly earlier than another; a missing one is earliest.
pub open spec fn updated_before(a: Option<String>, b: Option<String>) -> bool {
    match (a, b) {
        (_, None) => false,
        (None, Some(_)) => true,
        (Some(x), Some(y)) => chars_less(x@, y@),
    }
}

/// Note `a` was last edited strictly before note `b`.
pub open spec fn edited_before(a: Note, b: Note) -> bool {
    updated_before(a.frontmatter.updated, b.frontmatter.updated)
}

/// The note with title `t` that was edited most recently; among several
/// edited equally recently, the last of them.
pub open spec fn newest_title(notes: Seq<Note>, t: Seq<char>) -> Option<int>
    decreases notes.len(),
{
    if notes.len() == 0 {
        None
    } else {
        let prev = newest_title(notes.drop_last(), t);
        if title_of(notes.last()) == t && !(prev matches Some(j) && edited_before(notes.last(), notes[j])) {
            Some(notes.len() - 1)
        } else {
            prev
        }
    }
}

proof fn lemma_chars_less_order(a: Seq<char>, b: Seq<char>, c: Seq<char>, i: int)
    requires
        0 <= i,
    ensures
        chars_less_from(a, b, i) ==> !chars_less_from(b, a, i),
        chars_less_from(a, b, i) && chars_less_from(b, c, i) ==> chars_less_from(a, c, i),
        i <= a.len() && i <= b.len() && !chars_less_from(a, b, i) && !chars_less_from(b, a, i) ==> a.skip(i) == b.skip(i),
    decreases a.len() - i,
{
    if i < a.len() && i < b.len() && i < c.len() && a[i] == b[i] && b[i] == c[i] {
        lemma_chars_less_order(a, b, c, i + 1);
    } else if i < a.len() && i < b.len() && a[i] == b[i] {
        lemma_chars_less_order(a, b, c, i + 1);
    }
    if i < a.len() && i < b.len() && a[i] == b[i] && !chars_less_from(a, b, i) && !chars_less_from(b, a, i) {
        assert(a.skip(i) =~= seq![a[i]] + a.skip(i + 1));
        assert(b.skip(i) =~= seq![b[i]] + b.skip(i + 1));
    }
    if i == a.len() && i == b.len() {
        assert(a.skip(i) =~= b.skip(i));
    }
}

/// Being edited earlier is a strict order in which notes edited at the same
/// moment are interchangeable.
pub proof fn lemma_edited_order(a: Note, b: Note, c: Note)
    ensures
        edited_before(a, b) ==> !edited_before(b, a),
        edited_before(a, b) && edited_before(b, c) ==> edited_before(a, c),
        !edited_before(a, b) && !edited_before(b, c) ==> !edited_before(a, c),
{
    match (a.frontmatter.updated, b.frontmatter.updated) {
        (Some(x), Some(y)) => {
            lemma_chars_less_order(x@, y@, y@, 0);
        },
        _ => {},
    }
    match (a.frontmatter.updated, b.frontmatter.updated, c.frontmatter.updated) {
        (Some(x), Some(y), Some(z)) => {
            lemma_chars_less_order(x@, y@, z@, 0);
            lemma_chars_less_order(y@, x@, z@, 0);
            lemma_chars_less_order(x@, z@, y@, 0);
            lemma_chars_less_order(z@, y@, x@, 0);
            lemma_chars_less_order(y@, z@, x@, 0);
            lemma_chars_less_order(z@, x@, y@, 0);
            if !chars_less(x@, y@) && !chars_less(y@, z@) {
                if !chars_less(y@, x@) {
                    assert(x@.skip(0) =~= x@);
                    assert(y@.skip(0) =~= y@);
                }
                if !chars_less(z@, y@) {
                    assert(z@.skip(0) =~= z@);
                    assert(y@.skip(0) =~= y@);
                }
            }
        },
        _ => {},
    }
}

/// The most recently edited note with a title: it carries the title, no note
/// with that title was edited later, and each later note with the title was
/// edited earlier. A title names a note exactly when some note carries it.
pub proof fn lemma_newest_title(notes: Seq<Note>, t: Seq<char>)
    ensures
        newest_title(notes, t) matches Some(i) ==> 0 <= i < notes.len() && title_of(notes[i]) == t,
        newest_title(notes, t) is Some <==> exists|i: int| 0 <= i < notes.len() && #[trigger] title_of(notes[i]) == t,
        newest_title(notes, t) matches Some(i) ==> forall|j: int| 0 <= j < notes.len() && #[trigger] title_of(notes[j]) == t ==> !edited_before(notes[i], notes[j]),
        newest_title(notes, t) matches Some(i) ==> forall|j: int| i < j < notes.len() && #[trigger] title_of(notes[j]) == t ==> edited_before(notes[j], notes[i]),
    decreases notes.len(),
{
    if notes.len() > 0 {
        let rest = notes.drop_last();
        lemma_newest_title(rest, t);
        let prev = newest_title(rest, t);
        let l = notes.len() - 1;
        assert forall|j: int| 0 <= j < rest.len() implies #[trigger] rest[j] == notes[j] by {}
        if exists|i: int| 0 <= i < notes.len() && #[trigger] title_of(notes[i]) == t {
            let i = choose|i: int| 0 <= i < notes.len() && #[trigger] title_of(notes[i]) == t;
            if i < l {
                assert(title_of(rest[i]) == t);
            }
        }
        match newest_title(notes, t) {
            Some(i) => {
                if i == l {
                    assert forall|j: int| 0 <= j < notes.len() && #[trigger] title_of(notes[j]) == t implies !edited_before(notes[i], notes[j]) by {
                        if j < l {
                            assert(title_of(rest[j]) == t);
                            let p = prev->0;
                            lemma_edited_order(notes[l], notes[p], notes[j]);
                        } else {
                            lemma_edited_order(notes[l], notes[l], notes[l]);
                        }
                    }
                } else {
                    assert forall|j: int| 0 <= j < notes.len() && #[trigger] title_of(notes[j]) == t implies !edited_before(notes[i], notes[j]) by {
                        if j < l {
                            assert(title_of(rest[j]) == t);
                        } else {
                            lemma_edited_order(notes[l], notes[i], notes[i]);
                        }
                    }
                    assert forall|j: int| i < j < notes.len() && #[trigger] title_of(notes[j]) == t implies edited_before(notes[j], notes[i]) by {
                        if j < l {
                            assert(title_of(rest[j]) == t);
                        }
                    }
                }
            },
            None => {},
        }
    }
}

/// The entries of the title table filled from the first `k` notes in order: a
/// note takes a title's entry unless the note holding it was edited later.
pub open spec fn title_entries(notes: Seq<Note>, k: int) -> Seq<(Seq<char>, usize)>
    decreases k,
{
    if k <= 0 {
        seq![]
    } else {
        let e = title_entries(notes, k - 1);
        let t = title_of(notes[k - 1]);
        match lookup_in(e, t) {
            Some(j) => if edited_before(notes[k - 1], notes[j as int]) {
                e
            } else {
                insert_entry(e, t, (k - 1) as usize)
            },
            None => insert_entry(e, t, (k - 1) as usize),
        }
    }
}

/// A title table filled from the first `k` notes finds, for each title, the
/// most recently edited of those notes that has it.
pub proof fn lemma_title_entries(notes: Seq<Note>, k: int)
    requires
        0 <= k <= notes.len(),
        k <= usize::MAX,
    ensures
        distinct_keys(title_entries(notes, k)),
        forall|t: Seq<char>| #[trigger] opt_int(lookup_in(title_entries(notes, k), t))
            == newest_title(notes.take(k), t),
    decreases k,
{
    if k > 0 {
        lemma_title_entries(notes, k - 1);
        let e = title_entries(notes, k - 1);
        let s = title_of(notes[k - 1]);
        let pre = notes.take(k);
        assert(pre.drop_last() =~= notes.take(k - 1));
        assert(pre.last() == notes[k - 1]);
        assert(opt_int(lookup_in(e, s)) == newest_title(notes.take(k - 1), s));
        lemma_newest_title(notes.take(k - 1), s);
        match lookup_in(e, s) {
            Some(j) => {
                assert(pre[j as int] == notes[j as int]);
                if !edited_before(notes[k - 1], notes[j as int]) {
                    lemma_insert_entry(e, s, (k - 1) as usize);
                }
            },
            None => {
                lemma_insert_entry(e, s, (k - 1) as usize);
            },
        }
        assert forall|t: Seq<char>| #[trigger] opt_int(lookup_in(title_entries(notes, k), t))
            == newest_title(pre, t) by {
            assert(opt_int(lookup_in(e, t)) == newest_title(notes.take(k - 1), t));
        }
    } else {
        assert forall|t: Seq<char>| #[trigger] opt_int(lookup_in(title_entries(notes, k), t))
            == newest_title(notes.take(k), t) by {
            assert(notes.take(k).len() == 0);
        }
    }
}

/// Whether the `updated` value `a` is strictly earlier than `b`.
fn updated_earlier(a: &Option<String>, b: &Option<String>) -> (r: bool)
    ensures
        r == updated_before(*a, *b),
{
    match (a, b) {
        (_, None) => false,
        (None, Some(_)) => true,
        (Some(x), Some(y)) => {
            let xs = chars_of(x.as_str());
            let ys = chars_of(y.as_str());
            let mut i: usize = 0;
            while i < xs.len() && i < ys.len() && xs[i] == ys[i]
                invariant
                    xs@ == x@,
                    ys@ == y@,
                    i <= xs@.len(),
                    i <= ys@.len(),
                    chars_less(x@, y@) == chars_less_from(x@, y@, i as int),
                decreases xs.len() - i,
            {
                i += 1;
            }
            if i == ys.len() {
                false
            } else if i == xs.len() {
                true
            } else {
                xs[i] < ys[i]
            }
        },
    }
}

/// What `[[t]]` or a parent reference `t` names, with no containment context:
/// an exact id first, then an exact title (the most recently edited of the
/// notes that carry it), then an exact slug.
pub open spec fn resolve_spec(notes: Seq<Note>, t: Seq<char>) -> Option<int> {
    match last_match(notes, id_keyf(), t) {
        Some(i) => Some(i),
        None => match newest_title(notes, t) {
            Some(i) => Some(i),
            None => last_match(notes, slug_keyf(), t),
        },
    }
}

/// The entries of a lookup table filled from the first `k` notes in order.
pub open spec fn key_entries(notes: Seq<Note>, key: spec_fn(Note) -> Option<Seq<char>>, k: int) -> Seq<(Seq<char>, usize)>
    decreases k,
{
    if k <= 0 {
        seq![]
    } else {
        let e = key_entries(notes, key, k - 1);
        match key(notes[k - 1]) {
            Some(s) => insert_entry(e, s, (k - 1) as usize),
            None => e,
        }
    }
}

pub open spec fn opt_int(o: Option<usize>) -> Option<int> {
    match o {
        Some(i) => Some(i as int),
        None => None,
    }
}

pub proof fn lemma_last_match_bounds(notes: Seq<Note>, key: spec_fn(Note) -> Option<Seq<char>>, t: Seq<char>)
    ensures
        last_match(notes, key, t) matches Some(i) ==> 0 <= i < notes.len() && key(notes[i]) == Some(t),
    decreases notes.len(),
{
    if notes.len() > 0 && key(notes.last()) != Some(t) {
        lemma_last_match_bounds(notes.drop_last(), key, t);
    }
}

pub proof fn lemma_resolve_bounds(notes: Seq<Note>, t: Seq<char>)
    ensures
        resolve_spec(notes, t) matches Some(i) ==> 0 <= i < notes.len(),
{
    lemma_last_match_bounds(notes, id_keyf(), t);
    lemma_newest_title(notes, t);
    lemma_last_match_bounds(notes, slug_keyf(), t);
}

/// A table filled from the first `k` notes finds, for each key, the last of
/// those notes that has it.
pub proof fn lemma_key_entries(notes: Seq<Note>, key: spec_fn(Note) -> Option<Seq<char>>, k: int)
    requires
        0 <= k <= notes.len(),
        k <= usize::MAX,
    ensures
        distinct_keys(key_entries(notes, key, k)),
        forall|t: Seq<char>| #[trigger] opt_int(lookup_in(key_entries(notes, key, k), t))
            == last_match(notes.take(k), key, t),
    decreases k,
{
    if k > 0 {
        lemma_key_entries(notes, key, k - 1);
        let e = key_entries(notes, key, k - 1);
        assert(notes.take(k).drop_last() =~= notes.take(k - 1));
        assert(notes.take(k).last() == notes[k - 1]);
        match key(notes[k - 1]) {
            Some(s) => {
                lemma_insert_entry(e, s, (k - 1) as usize);
            },
            None => {},
        }
        assert forall|t: Seq<char>| #[trigger] opt_int(lookup_in(key_entries(notes, key, k), t))
            == last_match(notes.take(k), key, t) by {
            assert(opt_int(lookup_in(e, t)) == last_match(notes.take(k - 1), key, t));
        }
    } else {
        assert forall|t: Seq<char>| #[trigger] opt_int(lookup_in(key_entries(notes, key, k), t))
            == last_match(notes.take(k), key, t) by {
            assert(notes.take(k).len() == 0);
        }
    }
}

/// The three lookup tables agree with the notes.
pub open spec fn tables_agree(
    notes: Seq<Note>,
    by_id: KeyIndex<usize>,
    by_title: KeyIndex<usize>,
    by_slug: KeyIndex<usize>,
) -> bool {
    &&& by_id.wf()
    &&& by_title.wf()
    &&& by_slug.wf()
    &&& forall|t: Seq<char>| #[trigger] opt_int(by_id.lookup(t)) == last_match(notes, id_keyf(), t)
    &&& forall|t: Seq<char>| #[trigger] opt_int(by_title.lookup(t)) == newest_title(notes, t)
    &&& forall|t: Seq<char>| #[trigger] opt_int(by_slug.lookup(t)) == last_match(notes, slug_keyf(), t)
}

/// Fills the id, title and slug tables from the notes, in order.
fn key_tables(notes: &Vec<Note>) -> (r: (KeyIndex<usize>, KeyIndex<usize>, KeyIndex<usize>))
    ensures
        tables_agree(notes@, r.0, r.1, r.2),
        r.0.entries() == key_entries(notes@, id_keyf(), notes@.len() as int),
        r.1.entries() == title_entries(notes@, notes@.len() as int),
        r.2.entries() == key_entries(notes@, slug_keyf(), notes@.len() as int),
{
    let mut by_id: KeyIndex<usize> = KeyIndex::new();
    let mut by_title: KeyIndex<usize> = KeyIndex::new();
    let mut by_slug: KeyIndex<usize> = KeyIndex::new();
    let mut i: usize = 0;
    while i < notes.len()
        invariant
            i <= notes@.len(),
            by_id.wf(),
            by_title.wf(),
            by_slug.wf(),
            by_id.entries() == key_entries(notes@, id_keyf(), i as int),
            by_title.entries() == title_entries(notes@, i as int),
            by_slug.entries() == key_entries(notes@, slug_keyf(), i as int),
        decreases notes.len() - i,
    {
        let note = &notes[i];
        match &note.frontmatter.id {
            Some(id) => {
                by_id.insert(chars_of(id.as_str()), i);
            },
            None => {},
        }
        let title = chars_of(note.title());
        proof {
            lemma_title_entries(notes@, i as int);
            lemma_newest_title(notes@.take(i as int), title@);
        }
        let keep = match by_title.get(&title) {
            Some(j) => {
                assert(opt_int(lookup_in(title_entries(notes@, i as int), title@)) == newest_title(notes@.take(i as int), title@));
                assert(notes@.take(i as int)[*j as int] == notes@[*j as int]);
                updated_earlier(&note.frontmatter.updated, &notes[*j].frontmatter.updated)
            },
            None => false,
        };
        if !keep {
            by_title.insert(title, i);
        }
        by_slug.insert(chars_of(note.slug.as_str()), i);
        i += 1;
    }
    proof {
        lemma_key_entries(notes@, id_keyf(), notes@.len() as int);
        lemma_title_entries(notes@, notes@.len() as int);
        lemma_key_entries(notes@, slug_keyf(), notes@.len() as int);
        assert(notes@.take(notes@.len() as int) == notes@);
    }
    (by_id, by_title, by_slug)
}

/// Resolves a reference against the three tables.
fn resolve_ref(
    by_id: &KeyIndex<usize>,
    by_slug: &KeyIndex<usize>,
    by_title: &KeyIndex<usize>,
    target: &Vec<char>,
    Ghost(notes): Ghost<Seq<Note>>,
) -> (r: Option<usize>)
    requires
        tables_agree(notes, *by_id, *by_title, *by_slug),
    ensures
        opt_int(r) == resolve_spec(notes, target@),
{
    assert(opt_int(by_id.lookup(target@)) == last_match(notes, id_keyf(), target@));
    assert(opt_int(by_title.lookup(target@)) == newest_title(notes, target@));
    assert(opt_int(by_slug.lookup(target@)) == last_match(notes, slug_keyf(), target@));
    if let Some(i) = by_id.get(target) {
        return Some(*i);
    }
    if let Some(i) = by_title.get(target) {
        return Some(*i);
    }
    match by_slug.get(target) {
        Some(i) => Some(*i),
        None => None,
    }
}

// ---------------------------------------------------------------- edges

/// The parent references of a note's frontmatter (none when `parents` is absent).
pub open spec fn parent_refs(n: Note) -> Seq<Seq<char>> {
    match n.frontmatter.parents {
        Some(ps) => views(ps@),
        None => seq![],
    }
}

/// The containment edges that the parent references `ps` of note `c` give.
pub open spec fn parent_edges_of(notes: Seq<Note>, c: int, ps: Seq<Seq<char>>) -> Seq<Edge>
    decreases ps.len(),
{
    if ps.len() == 0 {
        seq![]
    } else {
        parent_edges_of(notes, c, ps.drop_last()) + match resolve_spec(notes, ps.last()) {
            Some(p) => seq![(p, c, EdgeKind::Contains)],
            None => seq![],
        }
    }
}

/// The parent references of note `c`, among `ps`, that name no note, as
/// `(slug of c, reference)`.
pub open spec fn unresolved_parents_of(notes: Seq<Note>, c: int, ps: Seq<Seq<char>>) -> Seq<(Seq<char>, Seq<char>)>
    decreases ps.len(),
{
    if ps.len() == 0 {
        seq![]
    } else {
        unresolved_parents_of(notes, c, ps.drop_last()) + match resolve_spec(notes, ps.last()) {
            Some(p) => seq![],
            None => seq![(notes[c].slug@, ps.last())],
        }
    }
}

pub open spec fn parent_edges_upto(notes: Seq<Note>, k: int) -> Seq<Edge>
    decreases k,
{
    if k <= 0 {
        seq![]
    } else {
        parent_edges_upto(notes, k - 1) + parent_edges_of(notes, k - 1, parent_refs(notes[k - 1]))
    }
}

pub open spec fn unresolved_parents_upto(notes: Seq<Note>, k: int) -> Seq<(Seq<char>, Seq<char>)>
    decreases k,
{
    if k <= 0 {
        seq![]
    } else {
        unresolved_parents_upto(notes, k - 1) + unresolved_parents_of(
            notes,
            k - 1,
            parent_refs(notes[k - 1]),
        )
    }
}

/// Areas and projects are structure notes: their links declare members.
pub open spec fn is_structure(n: Note) -> bool {
    n.frontmatter.note_type == NoteType::Area || n.frontmatter.note_type == NoteType::Project
}

/// The membership edges that the links `ls` of structure note `s` give: one to
/// each linked note that declares no `parents` of its own.
pub open spec fn member_edges_of(notes: Seq<Note>, s: int, ls: Seq<Seq<char>>) -> Seq<Edge>
    decreases ls.len(),
{
    if ls.len() == 0 {
        seq![]
    } else {
        member_edges_of(notes, s, ls.drop_last()) + match resolve_spec(notes, ls.last()) {
            Some(t) => if notes[t].frontmatter.parents is None {
                seq![(s, t, EdgeKind::Contains)]
            } else {
                seq![]
            },
            None => seq![],
        }
    }
}

pub open spec fn member_edges_upto(notes: Seq<Note>, k: int) -> Seq<Edge>
    decreases k,
{
    if k <= 0 {
        seq![]
    } else {
        member_edges_upto(notes, k - 1) + if is_structure(notes[k - 1]) {
            member_edges_of(notes, k - 1, views(notes[k - 1].links@))
        } else {
            seq![]
        }
    }
}

/// Whether some edge goes from `a` to `b`.
pub open spec fn has_edge(es: Seq<Edge>, a: int, b: int) -> bool {
    exists|i: int| 0 <= i < es.len() && #[trigger] es[i].0 == a && es[i].1 == b
}

/// The edges after the links `ls` of note `n` are added to `base`: a link edge
/// to each linked note that `n` has no edge to yet. A link is resolved in the
/// containment context of `n`.
pub open spec fn link_edges_of(notes: Seq<Note>, base: Seq<Edge>, n: int, ls: Seq<Seq<char>>) -> Seq<Edge>
    decreases ls.len(),
{
    if ls.len() == 0 {
        base
    } else {
        let acc = link_edges_of(notes, base, n, ls.drop_last());
        match link_resolve(notes, containment_edges(notes), n, ls.last()) {
            Some(t) => if has_edge(acc, n, t) {
                acc
            } else {
                acc.push((n, t, EdgeKind::Links))
            },
            None => acc,
        }
    }
}

/// The links of note `n`, among `ls`, that name no note, as `(slug of n, link)`.
pub open spec fn unresolved_links_of(notes: Seq<Note>, n: int, ls: Seq<Seq<char>>) -> Seq<(Seq<char>, Seq<char>)>
    decreases ls.len(),
{
    if ls.len() == 0 {
        seq![]
    } else {
        unresolved_links_of(notes, n, ls.drop_last()) + match resolve_spec(notes, ls.last()) {
            Some(t) => seq![],
            None => seq![(notes[n].slug@, ls.last())],
        }
    }
}

/// The containment edges: from parent references, then from memberships.
pub open spec fn containment_edges(notes: Seq<Note>) -> Seq<Edge> {
    parent_edges_upto(notes, notes.len() as int) + member_edges_upto(notes, notes.len() as int)
}

/// All edges after the links of the first `k` notes are added.
pub open spec fn edges_upto(notes: Seq<Note>, k: int) -> Seq<Edge>
    decreases k,
{
    if k <= 0 {
        containment_edges(notes)
    } else {
        link_edges_of(notes, edges_upto(notes, k - 1), k - 1, views(notes[k - 1].links@))
    }
}

/// The edges of the index built from `notes`, in the order they are added.
pub open spec fn index_edges(notes: Seq<Note>) -> Seq<Edge> {
    edges_upto(notes, notes.len() as int)
}

pub open spec fn unresolved_links_upto(notes: Seq<Note>, k: int) -> Seq<(Seq<char>, Seq<char>)>
    decreases k,
{
    if k <= 0 {
        seq![]
    } else {
        unresolved_links_upto(notes, k - 1) + unresolved_links_of(
            notes,
            k - 1,
            views(notes[k - 1].links@),
        )
    }
}

/// Every edge joins two of the `n` nodes.
pub open spec fn edges_valid(es: Seq<Edge>, n: int) -> bool {
    forall|i: int| 0 <= i < es.len() ==> 0 <= #[trigger] es[i].0 < n && 0 <= es[i].1 < n
}

pub open spec fn edge_view(e: (usize, usize, EdgeKind)) -> Edge {
    (e.0 as int, e.1 as int, e.2)
}

pub open spec fn edge_views(v: Seq<(usize, usize, EdgeKind)>) -> Seq<Edge> {
    v.map_values(|e: (usize, usize, EdgeKind)| edge_view(e))
}

pub open spec fn pair_views(v: Seq<(String, String)>) -> Seq<(Seq<char>, Seq<char>)> {
    v.map_values(|p: (String, String)| (p.0@, p.1@))
}

/// The containment edges from parent references, and the references that
/// name no note.
fn parent_phase(
    notes: &Vec<Note>,
    by_id: &KeyIndex<usize>,
    by_title: &KeyIndex<usize>,
    by_slug: &KeyIndex<usize>,
) -> (r: (Vec<(usize, usize, EdgeKind)>, Vec<(String, String)>))
    requires
        tables_agree(notes@, *by_id, *by_title, *by_slug),
    ensures
        edge_views(r.0@) == parent_edges_upto(notes@, notes@.len() as int),
        pair_views(r.1@) == unresolved_parents_upto(notes@, notes@.len() as int),
        edges_valid(edge_views(r.0@), notes@.len() as int),
{
    let mut edges: Vec<(usize, usize, EdgeKind)> = Vec::new();
    let mut unresolved: Vec<(String, String)> = Vec::new();
    let mut c: usize = 0;
    while c < notes.len()
        invariant
            c <= notes@.len(),
            tables_agree(notes@, *by_id, *by_title, *by_slug),
            edge_views(edges@) == parent_edges_upto(notes@, c as int),
            pair_views(unresolved@) == unresolved_parents_upto(notes@, c as int),
            edges_valid(edge_views(edges@), notes@.len() as int),
        decreases notes.len() - c,
    {
        let ghost e0 = edge_views(edges@);
        let ghost u0 = pair_views(unresolved@);
        let ghost ps = parent_refs(notes@[c as int]);
        match &notes[c].frontmatter.parents {
            Some(parents) => {
                let mut j: usize = 0;
                while j < parents.len()
                    invariant
                        c < notes@.len(),
                        notes@[c as int].frontmatter.parents == Some(*parents),
                        ps == views(parents@),
                        j <= parents@.len(),
                        tables_agree(notes@, *by_id, *by_title, *by_slug),
                        edge_views(edges@) == e0 + parent_edges_of(notes@, c as int, ps.take(j as int)),
                        pair_views(unresolved@) == u0 + unresolved_parents_of(notes@, c as int, ps.take(j as int)),
                        edges_valid(edge_views(edges@), notes@.len() as int),
                    decreases parents.len() - j,
                {
                    assert(ps.take(j + 1).drop_last() =~= ps.take(j as int));
                    assert(ps.take(j + 1).last() == parents@[j as int]@);
                    let target = chars_of(parents[j].as_str());
                    proof {
                        lemma_resolve_bounds(notes@, target@);
                    }
                    match resolve_ref(by_id, by_slug, by_title, &target, Ghost(notes@)) {
                        Some(p) => {
                            let ghost before = edges@;
                            edges.push((p, c, EdgeKind::Contains));
                            assert(edge_views(edges@) == edge_views(before).push((p as int, c as int, EdgeKind::Contains)));
                        },
                        None => {
                            let ghost before = unresolved@;
                            let pair = (notes[c].slug.clone(), parents[j].clone());
                            unresolved.push(pair);
                            assert(pair_views(unresolved@) == pair_views(before).push((notes@[c as int].slug@, parents@[j as int]@)));
                        },
                    }
                    j += 1;
                }
                assert(ps.take(parents@.len() as int) =~= ps);
            },
            None => {
                assert(ps =~= Seq::<Seq<char>>::empty());
                assert(parent_edges_of(notes@, c as int, ps) =~= Seq::<Edge>::empty());
                assert(unresolved_parents_of(notes@, c as int, ps) =~= Seq::<(Seq<char>, Seq<char>)>::empty());
            },
        }
        c += 1;
    }
    (edges, unresolved)
}

/// Adds the membership edges of the structure notes.
fn member_phase(
    notes: &Vec<Note>,
    by_id: &KeyIndex<usize>,
    by_title: &KeyIndex<usize>,
    by_slug: &KeyIndex<usize>,
    edges: &mut Vec<(usize, usize, EdgeKind)>,
)
    requires
        tables_agree(notes@, *by_id, *by_title, *by_slug),
        edges_valid(edge_views(old(edges)@), notes@.len() as int),
    ensures
        edge_views(final(edges)@) == edge_views(old(edges)@) + member_edges_upto(notes@, notes@.len() as int),
        edges_valid(edge_views(final(edges)@), notes@.len() as int),
{
    let ghost start = edge_views(edges@);
    let mut s: usize = 0;
    while s < notes.len()
        invariant
            s <= notes@.len(),
            tables_agree(notes@, *by_id, *by_title, *by_slug),
            edge_views(edges@) == start + member_edges_upto(notes@, s as int),
            edges_valid(edge_views(edges@), notes@.len() as int),
        decreases notes.len() - s,
    {
        let ghost e0 = edge_views(edges@);
        let note = &notes[s];
        let structural = match note.frontmatter.note_type {
            NoteType::Area | NoteType::Project => true,
            _ => false,
        };
        if structural {
            let ghost ls = views(note.links@);
            let mut j: usize = 0;
            while j < note.links.len()
                invariant
                    s < notes@.len(),
                    *note == notes@[s as int],
                    ls == views(note.links@),
                    j <= note.links@.len(),
                    tables_agree(notes@, *by_id, *by_title, *by_slug),
                    edge_views(edges@) == e0 + member_edges_of(notes@, s as int, ls.take(j as int)),
                    edges_valid(edge_views(edges@), notes@.len() as int),
                decreases note.links.len() - j,
            {
                assert(ls.take(j + 1).drop_last() =~= ls.take(j as int));
                assert(ls.take(j + 1).last() == note.links@[j as int]@);
                let target = chars_of(note.links[j].as_str());
                proof {
                    lemma_resolve_bounds(notes@, target@);
                }
                match resolve_ref(by_id, by_slug, by_title, &target, Ghost(notes@)) {
                    Some(t) => {
                        if notes[t].frontmatter.parents.is_none() {
                            let ghost before = edges@;
                            edges.push((s, t, EdgeKind::Contains));
                            assert(edge_views(edges@) == edge_views(before).push((s as int, t as int, EdgeKind::Contains)));
                        }
                    },
                    None => {},
                }
                j += 1;
            }
            assert(ls.take(note.links@.len() as int) =~= ls);
        } else {
            assert(member_edges_upto(notes@, s + 1) == member_edges_upto(notes@, s as int) + Seq::<Edge>::empty());
        }
        s += 1;
    }
}

/// Whether `v` holds an edge from `a` to `b`.
fn has_edge_exec(v: &Vec<(usize, usize, EdgeKind)>, a: usize, b: usize) -> (r: bool)
    ensures
        r == has_edge(edge_views(v@), a as int, b as int),
{
    let mut i: usize = 0;
    while i < v.len()
        invariant
            i <= v@.len(),
            forall|k: int| 0 <= k < i ==> !(#[trigger] v@[k].0 == a && v@[k].1 == b),
        decreases v.len() - i,
    {
        if v[i].0 == a && v[i].1 == b {
            assert(edge_views(v@)[i as int].0 == a);
            return true;
        }
        i += 1;
    }
    assert forall|k: int| 0 <= k < edge_views(v@).len() implies !(#[trigger] edge_views(v@)[k].0 == a && edge_views(v@)[k].1 == b) by {
        assert(edge_views(v@)[k] == edge_view(v@[k]));
    }
    false
}

// ---------------------------------------------------------------- containment context

/// Notes `a` and `b` share a containment context: one contains the other, or
/// some note contains both.
pub open spec fn in_context(es: Seq<Edge>, a: int, b: int) -> bool {
    ||| contains_edge(es, a, b)
    ||| contains_edge(es, b, a)
    ||| exists|p: int| #[trigger] contains_edge(es, p, a) && contains_edge(es, p, b)
}

pub open spec fn context_of(es: Seq<Edge>, s: int) -> spec_fn(int) -> bool {
    |c: int| in_context(es, s, c)
}

/// The most recently edited note with title `t` among those that `ok` admits;
/// among several edited equally recently, the last of them.
pub open spec fn newest_title_in(notes: Seq<Note>, ok: spec_fn(int) -> bool, t: Seq<char>) -> Option<int>
    decreases notes.len(),
{
    if notes.len() == 0 {
        None
    } else {
        let prev = newest_title_in(notes.drop_last(), ok, t);
        if ok(notes.len() - 1) && title_of(notes.last()) == t
            && !(prev matches Some(j) && edited_before(notes.last(), notes[j])) {
            Some(notes.len() - 1)
        } else {
            prev
        }
    }
}

/// What a link `[[t]]` written in note `s` names: an exact id first; then among
/// the notes titled `t`, those sharing a containment context with `s` (under
/// the containment edges `es`) first, and of these, or else of all, the most
/// recently edited; then an exact slug.
pub open spec fn link_resolve(notes: Seq<Note>, es: Seq<Edge>, s: int, t: Seq<char>) -> Option<int> {
    match last_match(notes, id_keyf(), t) {
        Some(i) => Some(i),
        None => match newest_title_in(notes, context_of(es, s), t) {
            Some(i) => Some(i),
            None => match newest_title(notes, t) {
                Some(i) => Some(i),
                None => last_match(notes, slug_keyf(), t),
            },
        },
    }
}

/// The most recently edited admitted note with a title: it is admitted and
/// carries the title, and no admitted note with the title was edited later.
/// Some note is found exactly when some admitted note carries the title.
pub proof fn lemma_newest_title_in(notes: Seq<Note>, ok: spec_fn(int) -> bool, t: Seq<char>)
    ensures
        newest_title_in(notes, ok, t) matches Some(i) ==> 0 <= i < notes.len() && title_of(notes[i]) == t && ok(i),
        newest_title_in(notes, ok, t) is Some <==> exists|i: int| 0 <= i < notes.len() && ok(i) && #[trigger] title_of(notes[i]) == t,
        newest_title_in(notes, ok, t) matches Some(i) ==> forall|j: int| 0 <= j < notes.len() && ok(j) && #[trigger] title_of(notes[j]) == t ==> !edited_before(notes[i], notes[j]),
    decreases notes.len(),
{
    if notes.len() > 0 {
        let rest = notes.drop_last();
        lemma_newest_title_in(rest, ok, t);
        let prev = newest_title_in(rest, ok, t);
        let l = notes.len() - 1;
        assert forall|j: int| 0 <= j < rest.len() implies #[trigger] rest[j] == notes[j] by {}
        if exists|i: int| 0 <= i < notes.len() && ok(i) && #[trigger] title_of(notes[i]) == t {
            let i = choose|i: int| 0 <= i < notes.len() && ok(i) && #[trigger] title_of(notes[i]) == t;
            if i < l {
                assert(title_of(rest[i]) == t);
            }
        }
        match newest_title_in(notes, ok, t) {
            Some(i) => {
                if i == l {
                    assert forall|j: int| 0 <= j < notes.len() && ok(j) && #[trigger] title_of(notes[j]) == t implies !edited_before(notes[i], notes[j]) by {
                        if j < l {
                            assert(title_of(rest[j]) == t);
                            let p = prev->0;
                            lemma_edited_order(notes[l], notes[p], notes[j]);
                        } else {
                            lemma_edited_order(notes[l], notes[l], notes[l]);
                        }
                    }
                } else {
                    assert forall|j: int| 0 <= j < notes.len() && ok(j) && #[trigger] title_of(notes[j]) == t implies !edited_before(notes[i], notes[j]) by {
                        if j < l {
                            assert(title_of(rest[j]) == t);
                        } else {
                            lemma_edited_order(notes[l], notes[i], notes[i]);
                        }
                    }
                }
            },
            None => {},
        }
    }
}

/// Containment context first: when no note has the link's text as id and some
/// note with it as title shares a containment context with the linking note,
/// the link names such a note, and none of them was edited later; when none
/// shares the context, it names the note that `[[t]]` names without context.
pub proof fn lemma_link_context_first(notes: Seq<Note>, es: Seq<Edge>, s: int, t: Seq<char>)
    requires
        last_match(notes, id_keyf(), t) is None,
    ensures
        (exists|c: int| 0 <= c < notes.len() && in_context(es, s, c) && #[trigger] title_of(notes[c]) == t) ==> {
            &&& link_resolve(notes, es, s, t) matches Some(i)
            &&& in_context(es, s, i)
            &&& title_of(notes[i]) == t
            &&& forall|c: int| 0 <= c < notes.len() && in_context(es, s, c) && #[trigger] title_of(notes[c]) == t ==> !edited_before(notes[i], notes[c])
        },
        !(exists|c: int| 0 <= c < notes.len() && in_context(es, s, c) && #[trigger] title_of(notes[c]) == t)
            ==> link_resolve(notes, es, s, t) == resolve_spec(notes, t),
{
    lemma_newest_title_in(notes, context_of(es, s), t);
    assert forall|c: int| 0 <= c < notes.len() implies (context_of(es, s)(c) <==> in_context(es, s, c)) by {}
    if exists|c: int| 0 <= c < notes.len() && in_context(es, s, c) && #[trigger] title_of(notes[c]) == t {
        let c = choose|c: int| 0 <= c < notes.len() && in_context(es, s, c) && #[trigger] title_of(notes[c]) == t;
        assert(context_of(es, s)(c));
    } else {
        if exists|c: int| 0 <= c < notes.len() && context_of(es, s)(c) && #[trigger] title_of(notes[c]) == t {
            let c = choose|c: int| 0 <= c < notes.len() && context_of(es, s)(c) && #[trigger] title_of(notes[c]) == t;
            assert(in_context(es, s, c));
        }
    }
}

/// A link resolves exactly when the same reference resolves without context,
/// and to a note; only which of several notes with its title it names can
/// differ.
pub proof fn lemma_link_resolve(notes: Seq<Note>, es: Seq<Edge>, s: int, t: Seq<char>)
    ensures
        link_resolve(notes, es, s, t) is Some <==> resolve_spec(notes, t) is Some,
        link_resolve(notes, es, s, t) matches Some(i) ==> 0 <= i < notes.len(),
        newest_title(notes, t) is None ==> link_resolve(notes, es, s, t) == resolve_spec(notes, t),
{
    lemma_resolve_bounds(notes, t);
    lemma_newest_title_in(notes, context_of(es, s), t);
    lemma_newest_title(notes, t);
    match newest_title_in(notes, context_of(es, s), t) {
        Some(i) => {
            assert(title_of(notes[i]) == t);
        },
        None => {},
    }
}

proof fn lemma_contains_edge_push(es: Seq<Edge>, e: Edge, a: int, b: int)
    ensures
        contains_edge(es.push(e), a, b) <==> contains_edge(es, a, b) || e == (a, b, EdgeKind::Contains),
{
    if contains_edge(es, a, b) {
        let i = choose|i: int| 0 <= i < es.len() && #[trigger] es[i] == (a, b, EdgeKind::Contains);
        assert(es.push(e)[i] == es[i]);
    }
    if e == (a, b, EdgeKind::Contains) {
        assert(es.push(e)[es.len() as int] == e);
    }
    if contains_edge(es.push(e), a, b) {
        let i = choose|i: int| 0 <= i < es.push(e).len() && #[trigger] es.push(e)[i] == (a, b, EdgeKind::Contains);
        if i < es.len() {
            assert(es[i] == es.push(e)[i]);
        }
    }
}

/// Which notes share a containment context with note `s`, under the first `m`
/// edges of `edges`.
fn context_marks(edges: &Vec<(usize, usize, EdgeKind)>, m: usize, s: usize, n: usize) -> (ctx: Vec<bool>)
    requires
        m <= edges@.len(),
        edges_valid(edge_views(edges@), n as int),
    ensures
        ctx@.len() == n,
        forall|c: int| 0 <= c < n ==> ctx@[c] == in_context(edge_views(edges@).take(m as int), s as int, c),
{
    let ghost es = edge_views(edges@).take(m as int);
    let mut parent: Vec<bool> = Vec::new();
    let mut ctx: Vec<bool> = Vec::new();
    let mut i: usize = 0;
    while i < n
        invariant
            i <= n,
            parent@.len() == i,
            ctx@.len() == i,
            forall|x: int| 0 <= x < i ==> !parent@[x] && !ctx@[x],
        decreases n - i,
    {
        parent.push(false);
        ctx.push(false);
        i += 1;
    }
    let mut k: usize = 0;
    while k < m
        invariant
            m <= edges@.len(),
            es == edge_views(edges@).take(m as int),
            edges_valid(edge_views(edges@), n as int),
            k <= m,
            parent@.len() == n,
            forall|p: int| 0 <= p < n ==> parent@[p] == contains_edge(es.take(k as int), p, s as int),
        decreases m - k,
    {
        let (a, b, kind) = edges[k];
        proof {
            assert(edge_views(edges@)[k as int] == edge_view(edges@[k as int]));
            assert(es[k as int] == (a as int, b as int, kind));
            assert(es.take(k + 1) =~= es.take(k as int).push(es[k as int]));
            assert forall|p: int| 0 <= p < n implies contains_edge(es.take(k + 1), p, s as int) == (contains_edge(es.take(k as int), p, s as int) || es[k as int] == (p, s as int, EdgeKind::Contains)) by {
                lemma_contains_edge_push(es.take(k as int), es[k as int], p, s as int);
            }
        }
        let ghost old_parent = parent@;
        if kind == EdgeKind::Contains && b == s {
            parent.set(a, true);
        }
        proof {
            assert forall|p: int| 0 <= p < n implies parent@[p] == contains_edge(es.take(k + 1), p, s as int) by {
                lemma_contains_edge_push(es.take(k as int), es[k as int], p, s as int);
                assert(old_parent[p] == contains_edge(es.take(k as int), p, s as int));
            }
        }
        k += 1;
    }
    assert(es.take(m as int) =~= es);
    let mut k: usize = 0;
    while k < m
        invariant
            m <= edges@.len(),
            es == edge_views(edges@).take(m as int),
            edges_valid(edge_views(edges@), n as int),
            k <= m,
            parent@.len() == n,
            ctx@.len() == n,
            forall|p: int| 0 <= p < n ==> parent@[p] == contains_edge(es, p, s as int),
            forall|c: int| 0 <= c < n ==> ctx@[c] == (contains_edge(es.take(k as int), s as int, c) || contains_edge(es.take(k as int), c, s as int)
                || exists|p: int| #[trigger] contains_edge(es, p, s as int) && contains_edge(es.take(k as int), p, c)),
        decreases m - k,
    {
        let (a, b, kind) = edges[k];
        let ghost e = es[k as int];
        let ghost pre = es.take(k as int);
        proof {
            assert(edge_views(edges@)[k as int] == edge_view(edges@[k as int]));
            assert(e == (a as int, b as int, kind));
            assert(es.take(k + 1) =~= pre.push(e));
        }
        if kind == EdgeKind::Contains {
            if a == s {
                ctx.set(b, true);
            }
            if b == s {
                ctx.set(a, true);
            }
            if parent[a] {
                ctx.set(b, true);
            }
        }
        proof {
            assert forall|c: int| 0 <= c < n implies ctx@[c] == (contains_edge(es.take(k + 1), s as int, c) || contains_edge(es.take(k + 1), c, s as int)
                || exists|p: int| #[trigger] contains_edge(es, p, s as int) && contains_edge(es.take(k + 1), p, c)) by {
                lemma_contains_edge_push(pre, e, s as int, c);
                lemma_contains_edge_push(pre, e, c, s as int);
                lemma_contains_edge_push(pre, e, a as int, c);
                if exists|p: int| #[trigger] contains_edge(es, p, s as int) && contains_edge(es.take(k + 1), p, c) {
                    let p = choose|p: int| #[trigger] contains_edge(es, p, s as int) && contains_edge(es.take(k + 1), p, c);
                    lemma_contains_edge_push(pre, e, p, c);
                    if !contains_edge(pre, p, c) {
                        assert(p == a);
                        assert(parent@[a as int]);
                    }
                }
                if kind == EdgeKind::Contains && parent@[a as int] && b == c {
                    assert(contains_edge(es, a as int, s as int) && contains_edge(es.take(k + 1), a as int, c));
                }
            }
        }
        k += 1;
    }
    proof {
        assert(es.take(m as int) =~= es);
        assert forall|c: int| 0 <= c < n implies ctx@[c] == in_context(es, s as int, c) by {
            if exists|p: int| #[trigger] contains_edge(es, p, s as int) && contains_edge(es, p, c) {
                let p = choose|p: int| #[trigger] contains_edge(es, p, s as int) && contains_edge(es, p, c);
                assert(contains_edge(es, p, s as int) && contains_edge(es, p, c));
            }
        }
    }
    ctx
}

/// The most recently edited note titled `t` among those `ctx` marks.
fn newest_marked(notes: &Vec<Note>, ctx: &Vec<bool>, t: &Vec<char>, Ghost(ok): Ghost<spec_fn(int) -> bool>) -> (r: Option<usize>)
    requires
        ctx@.len() == notes@.len(),
        forall|c: int| 0 <= c < notes@.len() ==> ctx@[c] == ok(c),
    ensures
        opt_int(r) == newest_title_in(notes@, ok, t@),
{
    let mut best: Option<usize> = None;
    let mut k: usize = 0;
    while k < notes.len()
        invariant
            k <= notes@.len(),
            ctx@.len() == notes@.len(),
            forall|c: int| 0 <= c < notes@.len() ==> ctx@[c] == ok(c),
            opt_int(best) == newest_title_in(notes@.take(k as int), ok, t@),
            best matches Some(b) ==> b < k,
        decreases notes.len() - k,
    {
        let ghost pre = notes@.take(k + 1);
        proof {
            assert(pre.drop_last() =~= notes@.take(k as int));
            assert(pre.last() == notes@[k as int]);
            match best {
                Some(b) => {
                    assert(pre[b as int] == notes@[b as int]);
                },
                None => {},
            }
        }
        let note = &notes[k];
        if ctx[k] && chars_eq(&chars_of(note.title()), t) {
            let replace = match best {
                Some(b) => !updated_earlier(&note.frontmatter.updated, &notes[b].frontmatter.updated),
                None => true,
            };
            if replace {
                best = Some(k);
            }
        }
        k += 1;
    }
    assert(notes@.take(notes@.len() as int) =~= notes@);
    best
}

/// Resolves a link written in note `s`, whose containment context `ctx` marks.
fn resolve_link(
    notes: &Vec<Note>,
    by_id: &KeyIndex<usize>,
    by_title: &KeyIndex<usize>,
    by_slug: &KeyIndex<usize>,
    ctx: &Vec<bool>,
    target: &Vec<char>,
    Ghost(es): Ghost<Seq<Edge>>,
    Ghost(s): Ghost<int>,
) -> (r: Option<usize>)
    requires
        tables_agree(notes@, *by_id, *by_title, *by_slug),
        ctx@.len() == notes@.len(),
        forall|c: int| 0 <= c < notes@.len() ==> ctx@[c] == in_context(es, s, c),
    ensures
        opt_int(r) == link_resolve(notes@, es, s, target@),
{
    assert(opt_int(by_id.lookup(target@)) == last_match(notes@, id_keyf(), target@));
    assert(opt_int(by_title.lookup(target@)) == newest_title(notes@, target@));
    assert(opt_int(by_slug.lookup(target@)) == last_match(notes@, slug_keyf(), target@));
    if let Some(i) = by_id.get(target) {
        return Some(*i);
    }
    match by_title.get(target) {
        Some(i) => {
            assert forall|c: int| 0 <= c < notes@.len() implies ctx@[c] == context_of(es, s)(c) by {}
            match newest_marked(notes, ctx, target, Ghost(context_of(es, s))) {
                Some(c) => Some(c),
                None => Some(*i),
            }
        },
        None => {
            proof {
                lemma_newest_title(notes@, target@);
                lemma_newest_title_in(notes@, context_of(es, s), target@);
                match newest_title_in(notes@, context_of(es, s), target@) {
                    Some(c) => {
                        assert(title_of(notes@[c]) == target@);
                    },
                    None => {},
                }
            }
            match by_slug.get(target) {
                Some(i) => Some(*i),
                None => None,
            }
        },
    }
}

/// Adds a link edge for each link that resolves to a note with no edge from the
/// linking note yet; collects the links that name no note.
fn link_phase(
    notes: &Vec<Note>,
    by_id: &KeyIndex<usize>,
    by_title: &KeyIndex<usize>,
    by_slug: &KeyIndex<usize>,
    edges: &mut Vec<(usize, usize, EdgeKind)>,
) -> (unresolved: Vec<(String, String)>)
    requires
        tables_agree(notes@, *by_id, *by_title, *by_slug),
        edge_views(old(edges)@) == containment_edges(notes@),
        edges_valid(edge_views(old(edges)@), notes@.len() as int),
    ensures
        edge_views(final(edges)@) == index_edges(notes@),
        edges_valid(edge_views(final(edges)@), notes@.len() as int),
        pair_views(unresolved@) == unresolved_links_upto(notes@, notes@.len() as int),
{
    let mut unresolved: Vec<(String, String)> = Vec::new();
    let m = edges.len();
    assert(edge_views(edges@).take(m as int) =~= edge_views(edges@));
    let mut n: usize = 0;
    while n < notes.len()
        invariant
            n <= notes@.len(),
            tables_agree(notes@, *by_id, *by_title, *by_slug),
            m <= edges@.len(),
            edge_views(edges@).take(m as int) == containment_edges(notes@),
            edge_views(edges@) == edges_upto(notes@, n as int),
            pair_views(unresolved@) == unresolved_links_upto(notes@, n as int),
            edges_valid(edge_views(edges@), notes@.len() as int),
        decreases notes.len() - n,
    {
        let ghost e0 = edge_views(edges@);
        let ghost u0 = pair_views(unresolved@);
        let note = &notes[n];
        let ghost ls = views(note.links@);
        let ctx = if note.links.len() > 0 {
            context_marks(edges, m, n, notes.len())
        } else {
            Vec::new()
        };
        let mut j: usize = 0;
        while j < note.links.len()
            invariant
                n < notes@.len(),
                *note == notes@[n as int],
                ls == views(note.links@),
                j <= note.links@.len(),
                tables_agree(notes@, *by_id, *by_title, *by_slug),
                m <= edges@.len(),
                edge_views(edges@).take(m as int) == containment_edges(notes@),
                j < note.links@.len() ==> ctx@.len() == notes@.len(),
                j < note.links@.len() ==> forall|c: int| 0 <= c < notes@.len() ==> ctx@[c] == in_context(containment_edges(notes@), n as int, c),
                edge_views(edges@) == link_edges_of(notes@, e0, n as int, ls.take(j as int)),
                pair_views(unresolved@) == u0 + unresolved_links_of(notes@, n as int, ls.take(j as int)),
                edges_valid(edge_views(edges@), notes@.len() as int),
            decreases note.links.len() - j,
        {
            assert(ls.take(j + 1).drop_last() =~= ls.take(j as int));
            assert(ls.take(j + 1).last() == note.links@[j as int]@);
            let target = chars_of(note.links[j].as_str());
            proof {
                lemma_link_resolve(notes@, containment_edges(notes@), n as int, target@);
            }
            match resolve_link(notes, by_id, by_title, by_slug, &ctx, &target, Ghost(containment_edges(notes@)), Ghost(n as int)) {
                Some(t) => {
                    if !has_edge_exec(edges, n, t) {
                        let ghost before = edges@;
                        edges.push((n, t, EdgeKind::Links));
                        assert(edge_views(edges@) == edge_views(before).push((n as int, t as int, EdgeKind::Links)));
                        assert(edge_views(edges@).take(m as int) =~= edge_views(before).take(m as int));
                    }
                },
                None => {
                    let ghost before = unresolved@;
                    let pair = (note.slug.clone(), note.links[j].clone());
                    unresolved.push(pair);
                    assert(pair_views(unresolved@) == pair_views(before).push((notes@[n as int].slug@, note.links@[j as int]@)));
                },
            }
            j += 1;
        }
        assert(ls.take(note.links@.len() as int) =~= ls);
        n += 1;
    }
    unresolved
}

// ---------------------------------------------------------------- blocks

/// Where a `^block-id` lives: its note and its text.
#[derive(Debug)]
pub struct BlockRef {
    pub note: NodeIndex,
    pub text: String,
}

pub open spec fn block_ref_view(o: Option<BlockRef>) -> Option<(int, Seq<char>)> {
    match o {
        Some(b) => Some((node_index_value(b.note), b.text@)),
        None => None,
    }
}

/// The text of the last block among `bs` whose id is `t`.
pub open spec fn last_block_in(bs: Seq<Block>, t: Seq<char>) -> Option<Seq<char>>
    decreases bs.len(),
{
    if bs.len() == 0 {
        None
    } else if opt_view(bs.last().id) == Some(t) {
        Some(bs.last().text@)
    } else {
        last_block_in(bs.drop_last(), t)
    }
}

/// The note and the text of the last block with id `t` among the first `k`
/// notes: a later block with the same id shadows an earlier one.
pub open spec fn block_owner_upto(notes: Seq<Note>, k: int, t: Seq<char>) -> Option<(int, Seq<char>)>
    decreases k,
{
    if k <= 0 {
        None
    } else {
        match last_block_in(notes[k - 1].blocks@, t) {
            Some(x) => Some((k - 1, x)),
            None => block_owner_upto(notes, k - 1, t),
        }
    }
}

/// The note and the text of the block with id `t`, if any note has one.
pub open spec fn block_owner(notes: Seq<Note>, t: Seq<char>) -> Option<(int, Seq<char>)> {
    block_owner_upto(notes, notes.len() as int, t)
}

/// The transclusions of note `n`, among `ts`, that name no block.
pub open spec fn unresolved_transclusions_of(notes: Seq<Note>, n: int, ts: Seq<Seq<char>>) -> Seq<(Seq<char>, Seq<char>)>
    decreases ts.len(),
{
    if ts.len() == 0 {
        seq![]
    } else {
        unresolved_transclusions_of(notes, n, ts.drop_last()) + if block_owner(notes, ts.last()) is None {
            seq![(notes[n].slug@, ts.last())]
        } else {
            seq![]
        }
    }
}

pub open spec fn unresolved_transclusions_upto(notes: Seq<Note>, k: int) -> Seq<(Seq<char>, Seq<char>)>
    decreases k,
{
    if k <= 0 {
        seq![]
    } else {
        unresolved_transclusions_upto(notes, k - 1) + unresolved_transclusions_of(
            notes,
            k - 1,
            views(notes[k - 1].transclusions@),
        )
    }
}

/// The registry of `^block-id`s.
fn block_phase(notes: &Vec<Note>) -> (r: KeyIndex<BlockRef>)
    requires
        notes@.len() < u32::MAX,
    ensures
        r.wf(),
        forall|t: Seq<char>| #[trigger] block_ref_view(r.lookup(t)) == block_owner(notes@, t),
{
    let mut reg: KeyIndex<BlockRef> = KeyIndex::new();
    let mut n: usize = 0;
    while n < notes.len()
        invariant
            n <= notes@.len() < u32::MAX,
            reg.wf(),
            forall|t: Seq<char>| #[trigger] block_ref_view(reg.lookup(t)) == block_owner_upto(notes@, n as int, t),
        decreases notes.len() - n,
    {
        let blocks = &notes[n].blocks;
        let mut j: usize = 0;
        while j < blocks.len()
            invariant
                n < notes@.len() < u32::MAX,
                *blocks == notes@[n as int].blocks,
                j <= blocks@.len(),
                reg.wf(),
                forall|t: Seq<char>| #[trigger] block_ref_view(reg.lookup(t)) == match last_block_in(blocks@.take(j as int), t) {
                    Some(x) => Some((n as int, x)),
                    None => block_owner_upto(notes@, n as int, t),
                },
            decreases blocks.len() - j,
        {
            assert(blocks@.take(j + 1).drop_last() =~= blocks@.take(j as int));
            assert(blocks@.take(j + 1).last() == blocks@[j as int]);
            let ghost old_reg = reg;
            match &blocks[j].id {
                Some(id) => {
                    let br = BlockRef { note: node_index(n), text: blocks[j].text.clone() };
                    reg.insert(chars_of(id.as_str()), br);
                    assert forall|t: Seq<char>| #[trigger] block_ref_view(reg.lookup(t)) == match last_block_in(blocks@.take(j + 1), t) {
                        Some(x) => Some((n as int, x)),
                        None => block_owner_upto(notes@, n as int, t),
                    } by {
                        if t != id@ {
                            assert(block_ref_view(old_reg.lookup(t)) == block_ref_view(reg.lookup(t)));
                        }
                    }
                },
                None => {},
            }
            j += 1;
        }
        assert(blocks@.take(blocks@.len() as int) =~= blocks@);
        n += 1;
    }
    reg
}

/// The transclusions that name no block in the registry.
fn transclusion_phase(notes: &Vec<Note>, reg: &KeyIndex<BlockRef>) -> (r: Vec<(String, String)>)
    requires
        reg.wf(),
        forall|t: Seq<char>| #[trigger] block_ref_view(reg.lookup(t)) == block_owner(notes@, t),
    ensures
        pair_views(r@) == unresolved_transclusions_upto(notes@, notes@.len() as int),
{
    let mut out: Vec<(String, String)> = Vec::new();
    let mut n: usize = 0;
    while n < notes.len()
        invariant
            n <= notes@.len(),
            reg.wf(),
            forall|t: Seq<char>| #[trigger] block_ref_view(reg.lookup(t)) == block_owner(notes@, t),
            pair_views(out@) == unresolved_transclusions_upto(notes@, n as int),
        decreases notes.len() - n,
    {
        let ghost u0 = pair_views(out@);
        let note = &notes[n];
        let ghost ts = views(note.transclusions@);
        let mut j: usize = 0;
        while j < note.transclusions.len()
            invariant
                n < notes@.len(),
                *note == notes@[n as int],
                ts == views(note.transclusions@),
                j <= note.transclusions@.len(),
                reg.wf(),
                forall|t: Seq<char>| #[trigger] block_ref_view(reg.lookup(t)) == block_owner(notes@, t),
                pair_views(out@) == u0 + unresolved_transclusions_of(notes@, n as int, ts.take(j as int)),
            decreases note.transclusions.len() - j,
        {
            assert(ts.take(j + 1).drop_last() =~= ts.take(j as int));
            assert(ts.take(j + 1).last() == note.transclusions@[j as int]@);
            let t = &note.transclusions[j];
            assert(block_ref_view(reg.lookup(t@)) == block_owner(notes@, t@));
            if !reg.contains_key(t.as_str()) {
                let ghost before = out@;
                out.push((note.slug.clone(), t.clone()));
                assert(pair_views(out@) == pair_views(before).push((notes@[n as int].slug@, t@)));
            }
            j += 1;
        }
        assert(ts.take(note.transclusions@.len() as int) =~= ts);
        n += 1;
    }
    out
}

// ---------------------------------------------------------------- containment reachability

/// A containment edge from `a` to `b`.
pub open spec fn contains_edge(es: Seq<Edge>, a: int, b: int) -> bool {
    exists|i: int| 0 <= i < es.len() && #[trigger] es[i] == (a, b, EdgeKind::Contains)
}

/// `p` walks along containment edges and takes at least one step.
pub open spec fn is_contains_path(es: Seq<Edge>, p: Seq<int>) -> bool {
    &&& p.len() >= 2
    &&& forall|i: int| 0 <= i < p.len() - 1 ==> #[trigger] contains_edge(es, p[i], p[i + 1])
}

/// `b` lies under `a`: a containment path leads from `a` to `b`.
pub open spec fn contained_in(es: Seq<Edge>, a: int, b: int) -> bool {
    exists|p: Seq<int>| #[trigger] is_contains_path(es, p) && p[0] == a && p.last() == b
}

pub proof fn lemma_edge_contained(es: Seq<Edge>, a: int, b: int)
    requires
        contains_edge(es, a, b),
    ensures
        contained_in(es, a, b),
{
    let p = seq![a, b];
    assert(is_contains_path(es, p)) by {
        assert forall|i: int| 0 <= i < p.len() - 1 implies #[trigger] contains_edge(es, p[i], p[i + 1]) by {
            assert(i == 0);
        }
    }
}

pub proof fn lemma_contained_step(es: Seq<Edge>, a: int, b: int, c: int)
    requires
        contained_in(es, a, b),
        contains_edge(es, b, c),
    ensures
        contained_in(es, a, c),
{
    let p = choose|p: Seq<int>| #[trigger] is_contains_path(es, p) && p[0] == a && p.last() == b;
    let q = p.push(c);
    assert forall|i: int| 0 <= i < q.len() - 1 implies #[trigger] contains_edge(es, q[i], q[i + 1]) by {
        if i < p.len() - 1 {
            assert(q[i] == p[i] && q[i + 1] == p[i + 1]);
            assert(contains_edge(es, p[i], p[i + 1]));
        } else {
            assert(q[i] == b && q[i + 1] == c);
        }
    }
    assert(is_contains_path(es, q));
}

/// Containment is transitive.
pub proof fn lemma_contained_transitive(es: Seq<Edge>, a: int, b: int, c: int)
    requires
        contained_in(es, a, b),
        contained_in(es, b, c),
    ensures
        contained_in(es, a, c),
{
    let p = choose|p: Seq<int>| #[trigger] is_contains_path(es, p) && p[0] == a && p.last() == b;
    let q = choose|q: Seq<int>| #[trigger] is_contains_path(es, q) && q[0] == b && q.last() == c;
    let r = p + q.skip(1);
    assert forall|i: int| 0 <= i < r.len() - 1 implies #[trigger] contains_edge(es, r[i], r[i + 1]) by {
        if i < p.len() - 1 {
            assert(r[i] == p[i] && r[i + 1] == p[i + 1]);
            assert(contains_edge(es, p[i], p[i + 1]));
        } else {
            let j = i - (p.len() - 1);
            assert(r[i] == q[j] && r[i + 1] == q[j + 1]);
            assert(contains_edge(es, q[j], q[j + 1]));
        }
    }
    assert(is_contains_path(es, r));
}

/// A set of nodes that holds `a` and is closed under containment edges holds
/// every node under `a`.
proof fn lemma_closed_holds_contained(es: Seq<Edge>, seen: Seq<bool>, a: int, p: Seq<int>, i: int)
    requires
        is_contains_path(es, p),
        p[0] == a,
        0 <= a < seen.len(),
        seen[a],
        edges_valid(es, seen.len() as int),
        forall|x: int, y: int| 0 <= x < seen.len() && seen[x] && #[trigger] contains_edge(es, x, y) ==> 0 <= y < seen.len() && seen[y],
        0 <= i < p.len(),
    ensures
        0 <= p[i] < seen.len() && seen[p[i]],
    decreases i,
{
    if i > 0 {
        lemma_closed_holds_contained(es, seen, a, p, i - 1);
        let k = i - 1;
        assert(contains_edge(es, p[k], p[k + 1]));
    }
}

/// The number of `false` entries.
pub open spec fn count_false(s: Seq<bool>) -> nat
    decreases s.len(),
{
    if s.len() == 0 {
        0
    } else {
        count_false(s.drop_last()) + if s.last() {
            0nat
        } else {
            1nat
        }
    }
}

pub proof fn lemma_count_false_set(s: Seq<bool>, i: int)
    requires
        0 <= i < s.len(),
        !s[i],
    ensures
        count_false(s.update(i, true)) + 1 == count_false(s),
    decreases s.len(),
{
    let t = s.update(i, true);
    if i < s.len() - 1 {
        lemma_count_false_set(s.drop_last(), i);
        assert(t.drop_last() =~= s.drop_last().update(i, true));
    } else {
        assert(t.drop_last() =~= s.drop_last());
    }
}

/// An entry of `outgoing(es, a)` is an edge that leaves `a`, and every edge
/// that leaves `a` is an entry.
proof fn lemma_outgoing(es: Seq<Edge>, a: int)
    ensures
        forall|m: int| #![trigger outgoing(es, a)[m]] 0 <= m < outgoing(es, a).len() ==> exists|i: int| 0 <= i < es.len() && #[trigger] es[i] == (a, outgoing(es, a)[m].0, outgoing(es, a)[m].1),
        forall|i: int| 0 <= i < es.len() && es[i].0 == a ==> exists|m: int| 0 <= m < outgoing(es, a).len() && #[trigger] outgoing(es, a)[m] == (es[i].1, es[i].2),
    decreases es.len(),
{
    if es.len() > 0 {
        let rest = es.drop_last();
        lemma_outgoing(rest, a);
        let e = es.last();
        let o = outgoing(es, a);
        let ro = outgoing(rest, a);
        if e.0 == a {
            assert(o == seq![(e.1, e.2)] + ro);
            assert forall|m: int| #![trigger o[m]] 0 <= m < o.len() implies exists|i: int| 0 <= i < es.len() && #[trigger] es[i] == (a, o[m].0, o[m].1) by {
                if m == 0 {
                    assert(es[es.len() - 1] == (a, o[m].0, o[m].1));
                } else {
                    assert(o[m] == ro[m - 1]);
                    let i = choose|i: int| 0 <= i < rest.len() && #[trigger] rest[i] == (a, ro[m - 1].0, ro[m - 1].1);
                    assert(es[i] == rest[i]);
                }
            }
            assert forall|i: int| 0 <= i < es.len() && es[i].0 == a implies exists|m: int| 0 <= m < o.len() && #[trigger] o[m] == (es[i].1, es[i].2) by {
                if i == es.len() - 1 {
                    assert(o[0] == (es[i].1, es[i].2));
                } else {
                    assert(rest[i] == es[i]);
                    let m = choose|m: int| 0 <= m < ro.len() && #[trigger] ro[m] == (rest[i].1, rest[i].2);
                    assert(o[m + 1] == ro[m]);
                }
            }
        } else {
            assert(o == ro);
            assert forall|m: int| #![trigger o[m]] 0 <= m < o.len() implies exists|i: int| 0 <= i < es.len() && #[trigger] es[i] == (a, o[m].0, o[m].1) by {
                let i = choose|i: int| 0 <= i < rest.len() && #[trigger] rest[i] == (a, ro[m].0, ro[m].1);
                assert(es[i] == rest[i]);
            }
            assert forall|i: int| 0 <= i < es.len() && es[i].0 == a implies exists|m: int| 0 <= m < o.len() && #[trigger] o[m] == (es[i].1, es[i].2) by {
                assert(i < es.len() - 1);
                assert(rest[i] == es[i]);
            }
        }
    }
}

/// Whether `x` occurs in `v`.
pub open spec fn occurs(v: Seq<usize>, x: int) -> bool {
    exists|i: int| 0 <= i < v.len() && v[i] == x
}

/// No value occurs twice.
pub open spec fn no_dups(v: Seq<usize>) -> bool {
    forall|i: int, j: int| 0 <= i < j < v.len() ==> v[i] != v[j]
}

/// The state of the walk under a note: which notes are seen, the notes
/// found so far in order, and the notes still to be expanded.
pub type WalkState = (Seq<bool>, Seq<usize>, Seq<usize>);

/// One child met by the walk: if not seen yet, it is marked, found and
/// stacked.
pub open spec fn visit_child(w: WalkState, c: int) -> WalkState {
    if 0 <= c < w.0.len() && !w.0[c] {
        (w.0.update(c, true), w.1.push(c as usize), w.2.push(c as usize))
    } else {
        w
    }
}

/// The walk meeting, in order, the targets of the containment edges among
/// the edges `l`.
#[verifier::opaque]
pub open spec fn visit_edges(l: Seq<(int, EdgeKind)>, w: WalkState) -> WalkState
    decreases l.len(),
{
    if l.len() == 0 {
        w
    } else {
        let v = visit_edges(l.drop_last(), w);
        if l.last().1 == EdgeKind::Contains {
            visit_child(v, l.last().0)
        } else {
            v
        }
    }
}

/// Depth-first walk along containment edges: take the note on top of the
/// stack and meet its children in the order of its outgoing edges (most
/// recently added first), until the stack is empty. Gives the notes found,
/// in the order they were found.
#[verifier::opaque]
pub open spec fn walk(es: Seq<Edge>, w: WalkState) -> Seq<usize>
    decreases count_false(w.0), w.2.len(),
{
    if w.2.len() == 0 {
        w.1
    } else {
        let next = visit_edges(outgoing(es, w.2.last() as int), (w.0, w.1, w.2.drop_last()));
        if count_false(next.0) < count_false(w.0) || (count_false(next.0) == count_false(w.0) && next.2.len() < w.2.len()) {
            walk(es, next)
        } else {
            w.1
        }
    }
}

/// Meeting one more edge.
proof fn lemma_visit_edges_step(l: Seq<(int, EdgeKind)>, j: int, w: WalkState)
    requires
        0 <= j < l.len(),
    ensures
        visit_edges(l.take(j + 1), w) == (if l[j].1 == EdgeKind::Contains {
            visit_child(visit_edges(l.take(j), w), l[j].0)
        } else {
            visit_edges(l.take(j), w)
        }),
{
    reveal(visit_edges);
    assert(l.take(j + 1).drop_last() =~= l.take(j));
}

/// Meeting no edge changes nothing.
proof fn lemma_visit_edges_none(l: Seq<(int, EdgeKind)>, w: WalkState)
    ensures
        visit_edges(l.take(0), w) == w,
{
    reveal(visit_edges);
    assert(l.take(0).len() == 0);
}

/// One round of the walk: the top of the stack is expanded.
proof fn lemma_walk_round(es: Seq<Edge>, w: WalkState)
    requires
        w.2.len() > 0,
    ensures
        ({
            let next = visit_edges(outgoing(es, w.2.last() as int), (w.0, w.1, w.2.drop_last()));
            (count_false(next.0) < count_false(w.0) || (count_false(next.0) == count_false(w.0) && next.2.len() < w.2.len()))
                ==> walk(es, w) == walk(es, next)
        }),
{
    reveal(walk);
}

/// The walk ends when the stack is empty.
proof fn lemma_walk_done(es: Seq<Edge>, w: WalkState)
    requires
        w.2.len() == 0,
    ensures
        walk(es, w) == w.1,
{
    reveal(walk);
}

/// Where the walk under `a` starts in a graph of `n` notes: only `a` seen,
/// nothing found, `a` on the stack.
pub open spec fn walk_start(n: nat, a: int) -> WalkState {
    (Seq::new(n, |i: int| i == a), seq![], seq![a as usize])
}

/// The notes under `a`, in the order the walk finds them, in a graph of `n`
/// notes.
pub open spec fn descendants_order(es: Seq<Edge>, n: nat, a: int) -> Seq<int> {
    walk(es, walk_start(n, a)).map_values(|x: usize| x as int)
}

// ---------------------------------------------------------------- lazy ids

/// The notes that the references `rs` name.
pub open spec fn resolved_set(notes: Seq<Note>, rs: Seq<Seq<char>>) -> Set<int>
    decreases rs.len(),
{
    if rs.len() == 0 {
        Set::empty()
    } else {
        let s = resolved_set(notes, rs.drop_last());
        match resolve_spec(notes, rs.last()) {
            Some(t) => s.insert(t),
            None => s,
        }
    }
}

/// The notes that the links `ls`, written in note `n`, name.
pub open spec fn linked_set(notes: Seq<Note>, n: int, ls: Seq<Seq<char>>) -> Set<int>
    decreases ls.len(),
{
    if ls.len() == 0 {
        Set::empty()
    } else {
        let s = linked_set(notes, n, ls.drop_last());
        match link_resolve(notes, containment_edges(notes), n, ls.last()) {
            Some(t) => s.insert(t),
            None => s,
        }
    }
}

/// The notes that the parent references and links of the first `k` notes name.
pub open spec fn targets_upto(notes: Seq<Note>, k: int) -> Set<int>
    decreases k,
{
    if k <= 0 {
        Set::empty()
    } else {
        targets_upto(notes, k - 1) + resolved_set(notes, parent_refs(notes[k - 1]))
            + linked_set(notes, k - 1, views(notes[k - 1].links@))
    }
}

/// The notes that some parent reference or link names.
pub open spec fn link_targets(notes: Seq<Note>) -> Set<int> {
    targets_upto(notes, notes.len() as int)
}

/// A ULID in its text form: 26 Crockford base-32 digits.
pub open spec fn is_ulid_text(s: Seq<char>) -> bool {
    &&& s.len() == 26
    &&& forall|i: int| 0 <= i < 26 ==> #[trigger] crockford_digit(s[i])
}

pub open spec fn crockford_digit(c: char) -> bool {
    ('0' <= c <= '9') || ('A' <= c <= 'Z' && c != 'I' && c != 'L' && c != 'O' && c != 'U')
}

/// `b` is `a` with another id, and nothing else changed.
pub open spec fn same_but_id(a: Note, b: Note) -> bool {
    b == Note { frontmatter: Frontmatter { id: b.frontmatter.id, ..a.frontmatter }, ..a }
}

/// What note `i` of `before` becomes: when a reference names it and it has no
/// id, the same note with a new ULID as its id; otherwise the note unchanged.
pub open spec fn id_assigned(before: Seq<Note>, i: int, n: Note) -> bool {
    if before[i].frontmatter.id is None && link_targets(before).contains(i) {
        &&& n.frontmatter.id matches Some(u) && is_ulid_text(u@)
        &&& same_but_id(before[i], n)
    } else {
        n == before[i]
    }
}

/// `after` is `before` with ids given to the referenced notes that lacked one.
pub open spec fn ids_assigned(before: Seq<Note>, after: Seq<Note>) -> bool {
    &&& after.len() == before.len()
    &&& forall|i: int| 0 <= i < before.len() ==> #[trigger] id_assigned(before, i, after[i])
}

/// Lazy ids: after ids are given, every note that some reference names has an
/// id, a note that had one keeps it, and a note that nothing names is left
/// exactly as it was.
pub proof fn lemma_lazy_ids(before: Seq<Note>, after: Seq<Note>, i: int)
    requires
        ids_assigned(before, after),
        0 <= i < before.len(),
    ensures
        link_targets(before).contains(i) ==> after[i].frontmatter.id is Some,
        before[i].frontmatter.id is Some ==> after[i].frontmatter.id == before[i].frontmatter.id,
        !link_targets(before).contains(i) ==> after[i] == before[i],
        after[i].slug == before[i].slug && after[i].links == before[i].links
            && after[i].frontmatter.title == before[i].frontmatter.title
            && after[i].frontmatter.parents == before[i].frontmatter.parents,
{
    assert(id_assigned(before, i, after[i]));
}

/// `Ulid::to_string`: the ULID as 26 Crockford base-32 digits.
#[verifier::external_body]
fn ulid_text(u: &Ulid) -> (r: String)
    ensures
        is_ulid_text(r@),
{
    u.to_string()
}

/// Marks the notes that the references `refs` name.
fn mark_targets(
    by_id: &KeyIndex<usize>,
    by_slug: &KeyIndex<usize>,
    by_title: &KeyIndex<usize>,
    refs: &Vec<String>,
    marked: &mut Vec<bool>,
    Ghost(notes): Ghost<Seq<Note>>,
    Ghost(before): Ghost<Set<int>>,
)
    requires
        tables_agree(notes, *by_id, *by_title, *by_slug),
        old(marked)@.len() == notes.len(),
        forall|x: int| 0 <= x < notes.len() ==> old(marked)@[x] == before.contains(x),
    ensures
        final(marked)@.len() == notes.len(),
        forall|x: int| 0 <= x < notes.len() ==> final(marked)@[x] == (before + resolved_set(notes, views(refs@))).contains(x),
{
    let mut j: usize = 0;
    while j < refs.len()
        invariant
            tables_agree(notes, *by_id, *by_title, *by_slug),
            j <= refs@.len(),
            marked@.len() == notes.len(),
            forall|x: int| 0 <= x < notes.len() ==> marked@[x] == (before + resolved_set(notes, views(refs@).take(j as int))).contains(x),
        decreases refs.len() - j,
    {
        let t = chars_of(refs[j].as_str());
        proof {
            lemma_resolve_bounds(notes, t@);
            assert(views(refs@).take(j + 1).drop_last() =~= views(refs@).take(j as int));
            assert(views(refs@).take(j + 1).last() == t@);
        }
        match resolve_ref(by_id, by_slug, by_title, &t, Ghost(notes)) {
            Some(k) => {
                marked.set(k, true);
            },
            None => {},
        }
        j += 1;
    }
    proof {
        assert(views(refs@).take(refs@.len() as int) =~= views(refs@));
    }
}

/// Marks the notes that the links `refs`, written in note `s`, name; `ctx`
/// marks the containment context of `s`.
fn mark_links(
    notes: &Vec<Note>,
    by_id: &KeyIndex<usize>,
    by_title: &KeyIndex<usize>,
    by_slug: &KeyIndex<usize>,
    ctx: &Vec<bool>,
    refs: &Vec<String>,
    marked: &mut Vec<bool>,
    Ghost(s): Ghost<int>,
    Ghost(before): Ghost<Set<int>>,
)
    requires
        tables_agree(notes@, *by_id, *by_title, *by_slug),
        ctx@.len() == notes@.len(),
        forall|c: int| 0 <= c < notes@.len() ==> ctx@[c] == in_context(containment_edges(notes@), s, c),
        old(marked)@.len() == notes@.len(),
        forall|x: int| 0 <= x < notes@.len() ==> old(marked)@[x] == before.contains(x),
    ensures
        final(marked)@.len() == notes@.len(),
        forall|x: int| 0 <= x < notes@.len() ==> final(marked)@[x] == (before + linked_set(notes@, s, views(refs@))).contains(x),
{
    let ghost es = containment_edges(notes@);
    let mut j: usize = 0;
    while j < refs.len()
        invariant
            tables_agree(notes@, *by_id, *by_title, *by_slug),
            ctx@.len() == notes@.len(),
            forall|c: int| 0 <= c < notes@.len() ==> ctx@[c] == in_context(es, s, c),
            es == containment_edges(notes@),
            j <= refs@.len(),
            marked@.len() == notes@.len(),
            forall|x: int| 0 <= x < notes@.len() ==> marked@[x] == (before + linked_set(notes@, s, views(refs@).take(j as int))).contains(x),
        decreases refs.len() - j,
    {
        let t = chars_of(refs[j].as_str());
        proof {
            lemma_link_resolve(notes@, es, s, t@);
            assert(views(refs@).take(j + 1).drop_last() =~= views(refs@).take(j as int));
            assert(views(refs@).take(j + 1).last() == t@);
        }
        match resolve_link(notes, by_id, by_title, by_slug, ctx, &t, Ghost(es), Ghost(s)) {
            Some(k) => {
                marked.set(k, true);
            },
            None => {},
        }
        j += 1;
    }
    proof {
        assert(views(refs@).take(refs@.len() as int) =~= views(refs@));
    }
}

/// Which notes some parent reference or link names, by position.
fn referenced_notes(notes: &Vec<Note>) -> (r: Vec<bool>)
    ensures
        r@.len() == notes@.len(),
        forall|x: int| 0 <= x < notes@.len() ==> r@[x] == link_targets(notes@).contains(x),
{
    let (by_id, by_title, by_slug) = key_tables(notes);
    let (mut edges, _) = parent_phase(notes, &by_id, &by_title, &by_slug);
    member_phase(notes, &by_id, &by_title, &by_slug, &mut edges);
    assert(edge_views(edges@) == containment_edges(notes@));
    let m = edges.len();
    assert(edge_views(edges@).take(m as int) =~= edge_views(edges@));
    let n = notes.len();
    let mut marked: Vec<bool> = Vec::new();
    let mut i: usize = 0;
    while i < n
        invariant
            n == notes@.len(),
            i <= n,
            marked@.len() == i,
            forall|x: int| 0 <= x < i ==> !marked@[x],
        decreases n - i,
    {
        marked.push(false);
        i += 1;
    }
    let mut i: usize = 0;
    while i < n
        invariant
            tables_agree(notes@, by_id, by_title, by_slug),
            n == notes@.len(),
            i <= n,
            m == edges@.len(),
            edge_views(edges@).take(m as int) == containment_edges(notes@),
            edges_valid(edge_views(edges@), n as int),
            marked@.len() == n,
            forall|x: int| 0 <= x < n ==> marked@[x] == targets_upto(notes@, i as int).contains(x),
        decreases n - i,
    {
        let note = &notes[i];
        let ghost start = targets_upto(notes@, i as int);
        let ghost mid = start + resolved_set(notes@, parent_refs(notes@[i as int]));
        match &note.frontmatter.parents {
            Some(ps) => {
                mark_targets(&by_id, &by_slug, &by_title, ps, &mut marked, Ghost(notes@), Ghost(start));
            },
            None => {
                assert(mid =~= start);
            },
        }
        if note.links.len() > 0 {
            let ctx = context_marks(&edges, m, i, n);
            mark_links(notes, &by_id, &by_title, &by_slug, &ctx, &note.links, &mut marked, Ghost(i as int), Ghost(mid));
        } else {
            assert(mid + linked_set(notes@, i as int, views(note.links@)) =~= mid);
        }
        i += 1;
    }
    marked
}

/// Gives each note that some parent reference or link names, and that has no
/// id, a new ULID as its id; every other note stays as it is.
fn assign_ids(notes: Vec<Note>) -> (r: Vec<Note>)
    ensures
        ids_assigned(notes@, r@),
{
    let marked = referenced_notes(&notes);
    let ghost all = notes@;
    let n = notes.len();
    let mut rest = notes;
    let mut out: Vec<Note> = Vec::new();
    let mut i: usize = 0;
    while i < n
        invariant
            n == all.len(),
            i <= n,
            marked@.len() == n,
            forall|x: int| 0 <= x < n ==> marked@[x] == link_targets(all).contains(x),
            rest@ == all.skip(i as int),
            out@.len() == i,
            forall|k: int| 0 <= k < i ==> #[trigger] id_assigned(all, k, out@[k]),
        decreases n - i,
    {
        assert(rest@[0] == all[i as int]);
        let mut note = rest.remove(0);
        if note.frontmatter.id.is_none() && marked[i] {
            let u = GraphIndex::generate_ulid();
            note.frontmatter.id = Some(ulid_text(&u));
        }
        out.push(note);
        assert(rest@ =~= all.skip(i + 1));
        assert(id_assigned(all, i as int, out@[i as int]));
        i += 1;
    }
    out
}

// ---------------------------------------------------------------- the index

/// The graph index over a vault.
pub struct GraphIndex {
    pub graph: Graph<Note, EdgeKind>,
    pub by_id: KeyIndex<usize>,
    pub by_slug: KeyIndex<usize>,
    pub by_title: KeyIndex<usize>,
    pub block_registry: KeyIndex<BlockRef>,
    pub unresolved_links: Vec<(String, String)>,
    pub unresolved_parents: Vec<(String, String)>,
    pub unresolved_transclusions: Vec<(String, String)>,
}

impl GraphIndex {
    /// The notes, by node position.
    pub open spec fn notes(&self) -> Seq<Note> {
        graph_nodes(self.graph)
    }

    /// The edges, in the order they were added.
    pub open spec fn edges(&self) -> Seq<Edge> {
        graph_edges(self.graph)
    }

    /// The tables agree with the notes, and every edge joins two notes.
    pub open spec fn wf(&self) -> bool {
        &&& self.notes().len() < u32::MAX
        &&& tables_agree(self.notes(), self.by_id, self.by_title, self.by_slug)
        &&& edges_valid(self.edges(), self.notes().len() as int)
        &&& self.block_registry.wf()
    }

    /// The index holds `notes` as nodes, in order, with the edges, tables,
    /// registry and unresolved references that they give.
    pub open spec fn built_from(&self, notes: Seq<Note>) -> bool {
        let n = notes.len() as int;
        &&& self.wf()
        &&& ids_assigned(notes, self.notes())
        &&& self.edges() == index_edges(notes)
        &&& self.by_id.entries() == key_entries(self.notes(), id_keyf(), n)
        &&& self.by_title.entries() == title_entries(self.notes(), n)
        &&& self.by_slug.entries() == key_entries(self.notes(), slug_keyf(), n)
        &&& forall|t: Seq<char>| #[trigger] block_ref_view(self.block_registry.lookup(t)) == block_owner(notes, t)
        &&& pair_views(self.unresolved_parents@) == unresolved_parents_upto(notes, n)
        &&& pair_views(self.unresolved_links@) == unresolved_links_upto(notes, n)
        &&& pair_views(self.unresolved_transclusions@) == unresolved_transclusions_upto(notes, n)
    }

    /// Builds the index of `notes`. The references are resolved among the
    /// notes as given: containment edges from `parents` references, then from
    /// the links of areas and projects to notes without `parents`; then a link
    /// edge for each resolved link between notes not yet joined by an edge in
    /// that direction. Each note that a reference names, and that has no id,
    /// then gets a new ULID as its id (the others stay as they are); the nodes
    /// are the notes, in order, and the name tables hold the new ids.
    pub fn build(notes: Vec<Note>) -> (r: GraphIndex)
        requires
            notes@.len() < u32::MAX,
            index_edges(notes@).len() < u32::MAX,
        ensures
            r.built_from(notes@),
    {
        match Self::try_build(notes) {
            Some(idx) => idx,
            None => vstd::pervasive::unreached(),
        }
    }

    /// Builds the index of `notes` as `build` does, when its edges fit in
    /// petgraph's `u32` edge indices; `None` otherwise.
    pub fn try_build(notes: Vec<Note>) -> (r: Option<GraphIndex>)
        requires
            notes@.len() < u32::MAX,
        ensures
            match r {
                Some(idx) => idx.built_from(notes@),
                None => index_edges(notes@).len() >= u32::MAX,
            },
    {
        let (by_id, by_title, by_slug) = key_tables(&notes);
        let (mut edges, unresolved_parents) = parent_phase(&notes, &by_id, &by_title, &by_slug);
        member_phase(&notes, &by_id, &by_title, &by_slug, &mut edges);
        let unresolved_links = link_phase(&notes, &by_id, &by_title, &by_slug, &mut edges);
        if edges.len() >= u32::MAX as usize {
            return None;
        }
        let block_registry = block_phase(&notes);
        let unresolved_transclusions = transclusion_phase(&notes, &block_registry);
        let named = assign_ids(notes);
        let (by_id, by_title, by_slug) = key_tables(&named);
        let ghost all = named@;
        let n = named.len();
        let mut rest = named;
        let mut graph = new_graph();
        let mut i: usize = 0;
        while i < n
            invariant
                n == all.len() < u32::MAX,
                i <= n,
                graph_nodes(graph) == all.take(i as int),
                graph_edges(graph) == Seq::<Edge>::empty(),
                rest@ == all.skip(i as int),
            decreases n - i,
        {
            let note = rest.remove(0);
            add_node(&mut graph, note);
            assert(all.take(i + 1) =~= all.take(i as int).push(all[i as int]));
            assert(rest@ =~= all.skip(i + 1));
            i += 1;
        }
        assert(all.take(n as int) =~= all);
        let mut k: usize = 0;
        while k < edges.len()
            invariant
                graph_nodes(graph) == all,
                all.len() < u32::MAX,
                edges@.len() < u32::MAX,
                k <= edges@.len(),
                edges_valid(edge_views(edges@), all.len() as int),
                graph_edges(graph) == edge_views(edges@).take(k as int),
            decreases edges.len() - k,
        {
            let (a, b, kind) = edges[k];
            assert(edge_views(edges@)[k as int] == edge_view(edges@[k as int]));
            add_edge(&mut graph, node_index(a), node_index(b), kind);
            assert(edge_views(edges@).take(k + 1) =~= edge_views(edges@).take(k as int).push(
                edge_view(edges@[k as int]),
            ));
            k += 1;
        }
        assert(edge_views(edges@).take(edges@.len() as int) =~= edge_views(edges@));
        Some(
            GraphIndex {
                graph,
                by_id,
                by_slug,
                by_title,
                block_registry,
                unresolved_links,
                unresolved_parents,
                unresolved_transclusions,
            },
        )
    }

    /// The note at node `n`.
    pub fn note(&self, n: NodeIndex) -> (r: &Note)
        requires
            0 <= node_index_value(n) < self.notes().len(),
        ensures
            *r == self.notes()[node_index_value(n)],
    {
        node_weight(&self.graph, n)
    }

    /// Resolves `[[target]]` with no linking note to give a containment
    /// context: an exact id first, then an exact title (the most recently
    /// edited note among those carrying it), then an exact slug.
    pub fn resolve(&self, target: &str) -> (r: Option<NodeIndex>)
        requires
            self.wf(),
        ensures
            match r {
                Some(n) => resolve_spec(self.notes(), target@) == Some(node_index_value(n)),
                None => resolve_spec(self.notes(), target@) is None,
            },
    {
        let t = chars_of(target);
        proof {
            lemma_resolve_bounds(self.notes(), t@);
        }
        match resolve_ref(&self.by_id, &self.by_slug, &self.by_title, &t, Ghost(self.notes())) {
            Some(i) => Some(node_index(i)),
            None => None,
        }
    }
}


impl GraphIndex {
    /// Every note under `node` by containment, each once; `node` itself is not
    /// among them. Depth first, most recently added containment edge first.
    #[verifier::spinoff_prover]
    pub fn descendants(&self, node: NodeIndex) -> (r: Vec<NodeIndex>)
        requires
            self.wf(),
            0 <= node_index_value(node) < self.notes().len(),
        ensures
            index_values(r@) == descendants_order(self.edges(), self.notes().len(), node_index_value(node)),
            forall|i: int, j: int| 0 <= i < j < r@.len() ==> node_index_value(#[trigger] r@[i]) != node_index_value(#[trigger] r@[j]),
            forall|i: int| 0 <= i < r@.len() ==> 0 <= node_index_value(#[trigger] r@[i]) < self.notes().len(),
            forall|x: int| (exists|i: int| 0 <= i < r@.len() && node_index_value(#[trigger] r@[i]) == x) <==> (x != node_index_value(node) && contained_in(self.edges(), node_index_value(node), x)),
    {
        let ghost es = self.edges();
        let n = node_count(&self.graph);
        let a = index_of(node);
        let mut seen: Vec<bool> = Vec::new();
        let mut k: usize = 0;
        while k < n
            invariant
                k <= n,
                seen@.len() == k,
                forall|x: int| 0 <= x < k ==> !seen@[x],
            decreases n - k,
        {
            seen.push(false);
            k += 1;
        }
        seen.set(a, true);
        let ghost init: WalkState = walk_start(n as nat, a as int);
        assert(seen@ =~= init.0);
        let mut out: Vec<usize> = Vec::new();
        let mut stack: Vec<usize> = Vec::new();
        stack.push(a);
        assert(stack@ =~= init.2);
        assert(out@ =~= init.1);
        assert(stack@[0] == a);
        assert(occurs(stack@, a as int));
        assert forall|x: int| 0 <= x < n && seen@[x] implies x == a by {}
        while stack.len() > 0
            invariant
                n == self.notes().len() < u32::MAX,
                es == self.edges(),
                edges_valid(es, n as int),
                a < n,
                a == node_index_value(node),
                seen@.len() == n,
                seen@[a as int],
                forall|x: int| 0 <= x < n ==> (seen@[x] <==> (x == a || occurs(out@, x))),
                forall|i: int| 0 <= i < stack@.len() ==> stack@[i] < n && seen@[stack@[i] as int],
                no_dups(stack@),
                no_dups(out@),
                forall|i: int| 0 <= i < out@.len() ==> out@[i] < n && out@[i] != a && contained_in(es, a as int, out@[i] as int),
                forall|x: int, y: int| 0 <= x < n && seen@[x] && !occurs(stack@, x) && #[trigger] contains_edge(es, x, y) ==> 0 <= y < n && seen@[y],
                walk(es, (seen@, out@, stack@)) == walk(es, init),
            decreases count_false(seen@), stack@.len(),
        {
            let ghost c0 = count_false(seen@);
            let ghost prev = stack@;
            let ghost w0: WalkState = (seen@, out@, stack@);
            let cur = stack.pop().unwrap();
            assert(stack@ == prev.drop_last() && cur == prev.last());
            assert(!occurs(stack@, cur as int)) by {
                if occurs(stack@, cur as int) {
                    let i = choose|i: int| 0 <= i < stack@.len() && stack@[i] == cur;
                    assert(prev[i] == prev[prev.len() - 1]);
                }
            }
            assert(cur < n && seen@[cur as int]);
            assert(cur == a || contained_in(es, a as int, cur as int)) by {
                if cur != a {
                    assert(occurs(out@, cur as int));
                    let i = choose|i: int| 0 <= i < out@.len() && out@[i] == cur;
                }
            }
            let kids = out_edges(&self.graph, node_index(cur));
            proof {
                lemma_outgoing(es, cur as int);
            }
            let ghost o = outgoing(es, cur as int);
            assert(pair_values(kids@) == o);
            let ghost s1 = stack@;
            let ghost start: WalkState = (seen@, out@, stack@);
            proof {
                lemma_visit_edges_none(o, start);
            }
            assert forall|x: int| 0 <= x < n && x != cur && !occurs(stack@, x) implies !occurs(prev, x) by {
                if occurs(prev, x) {
                    let i = choose|i: int| 0 <= i < prev.len() && prev[i] == x;
                    if i < prev.len() - 1 {
                        assert(stack@[i] == x);
                    }
                }
            }
            let mut j: usize = 0;
            while j < kids.len()
                invariant
                    n == self.notes().len() < u32::MAX,
                    es == self.edges(),
                    edges_valid(es, n as int),
                    a < n,
                    a == node_index_value(node),
                    cur < n,
                    cur == a || contained_in(es, a as int, cur as int),
                    pair_values(kids@) == o,
                    o == outgoing(es, cur as int),
                    forall|m: int| #![trigger o[m]] 0 <= m < o.len() ==> exists|i: int| 0 <= i < es.len() && #[trigger] es[i] == (cur as int, o[m].0, o[m].1),
                    j <= kids@.len(),
                    seen@.len() == n,
                    seen@[a as int],
                    seen@[cur as int],
                    !occurs(stack@, cur as int),
                    forall|x: int| 0 <= x < n ==> (seen@[x] <==> (x == a || occurs(out@, x))),
                    forall|i: int| 0 <= i < stack@.len() ==> stack@[i] < n && seen@[stack@[i] as int],
                    no_dups(stack@),
                    no_dups(out@),
                    forall|i: int| 0 <= i < out@.len() ==> out@[i] < n && out@[i] != a && contained_in(es, a as int, out@[i] as int),
                    forall|x: int, y: int| 0 <= x < n && x != cur && seen@[x] && !occurs(stack@, x) && #[trigger] contains_edge(es, x, y) ==> 0 <= y < n && seen@[y],
                    forall|m: int| 0 <= m < j && #[trigger] o[m].1 == EdgeKind::Contains ==> 0 <= o[m].0 < n && seen@[o[m].0],
                    count_false(seen@) <= c0,
                    count_false(seen@) == c0 ==> stack@ == s1,
                    s1.len() < prev.len(),
                    (seen@, out@, stack@) == visit_edges(o.take(j as int), start),
                decreases kids.len() - j,
            {
                proof {
                    lemma_visit_edges_step(o, j as int, start);
                }
                let (t, kind) = kids[j];
                assert(o[j as int] == (node_index_value(t), kind));
                let ghost i0 = choose|i: int| 0 <= i < es.len() && #[trigger] es[i] == (cur as int, o[j as int].0, o[j as int].1);
                assert(es[i0].0 == cur);
                assert(0 <= es[i0].1 < n);
                if kind == EdgeKind::Contains {
                    let c = index_of(t);
                    if !seen[c] {
                        proof {
                            lemma_count_false_set(seen@, c as int);
                            assert(contains_edge(es, cur as int, c as int));
                            if cur == a {
                                lemma_edge_contained(es, a as int, c as int);
                            } else {
                                lemma_contained_step(es, a as int, cur as int, c as int);
                            }
                            assert(!occurs(out@, c as int));
                            assert(!occurs(stack@, c as int));
                        }
                        let ghost out0 = out@;
                        let ghost st0 = stack@;
                        seen.set(c, true);
                        out.push(c);
                        stack.push(c);
                        assert forall|x: int| 0 <= x < n implies (seen@[x] <==> (x == a || occurs(out@, x))) by {
                            if occurs(out0, x) {
                                let i = choose|i: int| 0 <= i < out0.len() && out0[i] == x;
                                assert(out@[i] == x);
                            }
                            if x == c {
                                assert(out@[out@.len() - 1] == x);
                            }
                            if occurs(out@, x) && x != c {
                                let i = choose|i: int| 0 <= i < out@.len() && out@[i] == x;
                                assert(out0[i] == x);
                            }
                        }
                        assert forall|x: int| 0 <= x < n && seen@[x] && !occurs(stack@, x) implies !occurs(st0, x) && x != c by {
                            if occurs(st0, x) {
                                let i = choose|i: int| 0 <= i < st0.len() && st0[i] == x;
                                assert(stack@[i] == x);
                            }
                            if x == c {
                                assert(stack@[stack@.len() - 1] == x);
                            }
                        }
                        assert(!occurs(stack@, cur as int)) by {
                            if occurs(stack@, cur as int) {
                                let i = choose|i: int| 0 <= i < stack@.len() && stack@[i] == cur;
                                if i < st0.len() {
                                    assert(st0[i] == cur);
                                }
                            }
                        }
                    }
                }
                j += 1;
            }
            proof {
                assert(o.take(o.len() as int) =~= o);
                assert(w0.2.last() == cur);
                assert(w0.2.drop_last() == s1);
                lemma_walk_round(es, w0);
                assert(walk(es, w0) == walk(es, (seen@, out@, stack@)));
                assert forall|x: int, y: int| 0 <= x < n && seen@[x] && !occurs(stack@, x) && #[trigger] contains_edge(es, x, y) implies 0 <= y < n && seen@[y] by {
                    if x == cur {
                        let i = choose|i: int| 0 <= i < es.len() && #[trigger] es[i] == (x, y, EdgeKind::Contains);
                        assert(es[i].0 == cur);
                        let m = choose|m: int| 0 <= m < o.len() && #[trigger] o[m] == (es[i].1, es[i].2);
                        assert(o[m].1 == EdgeKind::Contains);
                    }
                }
            }
        }
        proof {
            assert forall|x: int| x != a && contained_in(es, a as int, x) implies occurs(out@, x) by {
                let p = choose|p: Seq<int>| #[trigger] is_contains_path(es, p) && p[0] == a && p.last() == x;
                assert forall|u: int, v: int| 0 <= u < seen@.len() && seen@[u] && #[trigger] contains_edge(es, u, v) implies 0 <= v < seen@.len() && seen@[v] by {
                    assert(!occurs(stack@, u));
                }
                lemma_closed_holds_contained(es, seen@, a as int, p, p.len() - 1);
            }
        }
        proof {
            lemma_walk_done(es, (seen@, out@, stack@));
        }
        let mut r: Vec<NodeIndex> = Vec::new();
        let mut i: usize = 0;
        while i < out.len()
            invariant
                i <= out@.len(),
                out@ == walk(es, init),
                r@.len() == i,
                forall|k: int| 0 <= k < i ==> node_index_value(#[trigger] r@[k]) == out@[k],
                forall|k: int| 0 <= k < out@.len() ==> out@[k] < n,
                n < u32::MAX,
            decreases out.len() - i,
        {
            r.push(node_index(out[i]));
            i += 1;
        }
        assert(index_values(r@) =~= descendants_order(es, n as nat, a as int)) by {
            let d = descendants_order(es, n as nat, a as int);
            assert(d.len() == out@.len());
            assert forall|k: int| 0 <= k < r@.len() implies index_values(r@)[k] == d[k] by {
                assert(node_index_value(r@[k]) == out@[k]);
            }
        }
        assert forall|x: int| (exists|i: int| 0 <= i < r@.len() && node_index_value(#[trigger] r@[i]) == x) <==> (x != node_index_value(node) && contained_in(self.edges(), node_index_value(node), x)) by {
            if exists|i: int| 0 <= i < r@.len() && node_index_value(#[trigger] r@[i]) == x {
                let i = choose|i: int| 0 <= i < r@.len() && node_index_value(#[trigger] r@[i]) == x;
                assert(out@[i] == x);
            }
            if x != a && contained_in(es, a as int, x) {
                assert(occurs(out@, x));
                let i = choose|i: int| 0 <= i < out@.len() && out@[i] == x;
                assert(node_index_value(r@[i]) == x);
            }
        }
        r
    }
}

// ---------------------------------------------------------------- fuzzy resolution

/// The best candidate among the first `k`, as `(score, byte length, node)`: a
/// higher score wins, then a shorter name; the first seen wins a full tie.
/// Candidates that score 0 never win.
pub open spec fn fuzzy_best(cands: Seq<(Seq<char>, usize)>, tl: Seq<char>, tn: Seq<char>, k: int) -> Option<(int, int, int)>
    decreases k,
{
    if k <= 0 {
        None
    } else {
        let b = fuzzy_best(cands, tl, tn, k - 1);
        let name = cands[k - 1].0;
        let sc = score_spec(name, tl, tn);
        let len = utf8_len(name) as int;
        let better = match b {
            None => true,
            Some(x) => sc > x.0 || (sc == x.0 && len < x.1),
        };
        if sc > 0 && better {
            Some((sc, len, cands[k - 1].1 as int))
        } else {
            b
        }
    }
}

/// The running best of fuzzy resolution, as exec values, is `b`.
pub open spec fn best_agrees(best: Option<(i32, u128, usize)>, b: Option<(int, int, int)>, nn: int) -> bool {
    match best {
        Some(x) => b == Some((x.0 as int, x.1 as int, x.2 as int)) && x.2 < nn,
        None => b is None,
    }
}

/// One step of fuzzy resolution: weighs candidate `k`.
fn weigh(
    best: Option<(i32, u128, usize)>,
    name: &Vec<char>,
    idx: usize,
    tl: &Vec<char>,
    tn: &Vec<char>,
    Ghost(cands): Ghost<Seq<(Seq<char>, usize)>>,
    Ghost(k): Ghost<int>,
    Ghost(nn): Ghost<int>,
) -> (r: Option<(i32, u128, usize)>)
    requires
        0 <= k < cands.len(),
        cands[k] == (name@, idx),
        idx < nn,
        best_agrees(best, fuzzy_best(cands, tl@, tn@, k), nn),
    ensures
        best_agrees(r, fuzzy_best(cands, tl@, tn@, k + 1), nn),
{
    let sc = fuzzy_score(name, tl, tn);
    let len = utf8_length(name);
    if sc > 0 {
        let better = match best {
            None => true,
            Some((bs, bl, _)) => sc > bs || (sc == bs && len < bl),
        };
        if better {
            return Some((sc, len, idx));
        }
    }
    best
}

impl GraphIndex {
    /// The names that fuzzy resolution weighs: the slugs, then the titles.
    pub open spec fn fuzzy_candidates(&self) -> Seq<(Seq<char>, usize)> {
        self.by_slug.entries() + self.by_title.entries()
    }

    /// What `resolve_fuzzy(target)` gives: the exact resolution when there is
    /// one, else the best-scoring slug or title.
    pub open spec fn fuzzy_spec(&self, target: Seq<char>) -> Option<int> {
        match resolve_spec(self.notes(), target) {
            Some(i) => Some(i),
            None => {
                let tl = lowercase(target);
                match fuzzy_best(self.fuzzy_candidates(), tl, without_separators(tl), self.fuzzy_candidates().len() as int) {
                    Some(b) => Some(b.2),
                    None => None,
                }
            },
        }
    }

    /// Resolves `target` exactly if it can, else to the slug or title that
    /// matches it best up to case, separators, prefix or substring.
    pub fn resolve_fuzzy(&self, target: &str) -> (r: Option<NodeIndex>)
        requires
            self.wf(),
        ensures
            match r {
                Some(n) => self.fuzzy_spec(target@) == Some(node_index_value(n)),
                None => self.fuzzy_spec(target@) is None,
            },
    {
        if let Some(idx) = self.resolve(target) {
            return Some(idx);
        }
        let t = chars_of(target);
        let tl = lowercase_chars(&t);
        let tn = strip_separators(&tl);
        let ghost cands = self.fuzzy_candidates();
        let ghost nn = self.notes().len() as int;
        let mut best: Option<(i32, u128, usize)> = None;
        let ns = self.by_slug.len();
        let mut k: usize = 0;
        while k < ns
            invariant
                self.wf(),
                cands == self.fuzzy_candidates(),
                nn == self.notes().len(),
                ns == self.by_slug.entries().len(),
                tl@ == lowercase(target@),
                tn@ == without_separators(tl@),
                k <= ns,
                best_agrees(best, fuzzy_best(cands, tl@, tn@, k as int), nn),
            decreases ns - k,
        {
            let (name, idx) = self.by_slug.entry(k);
            assert(self.by_slug.entries()[k as int] == cands[k as int]);
            proof {
                lemma_lookup_at(self.by_slug.entries(), k as int);
                assert(opt_int(self.by_slug.lookup(name@)) == last_match(self.notes(), slug_keyf(), name@));
                lemma_last_match_bounds(self.notes(), slug_keyf(), name@);
            }
            best = weigh(best, name, *idx, &tl, &tn, Ghost(cands), Ghost(k as int), Ghost(nn));
            k += 1;
        }
        let nt = self.by_title.len();
        let mut k: usize = 0;
        while k < nt
            invariant
                self.wf(),
                cands == self.fuzzy_candidates(),
                nn == self.notes().len(),
                ns == self.by_slug.entries().len(),
                nt == self.by_title.entries().len(),
                tl@ == lowercase(target@),
                tn@ == without_separators(tl@),
                k <= nt,
                best_agrees(best, fuzzy_best(cands, tl@, tn@, ns + k), nn),
            decreases nt - k,
        {
            let (name, idx) = self.by_title.entry(k);
            assert(self.by_title.entries()[k as int] == cands[ns + k]);
            proof {
                lemma_lookup_at(self.by_title.entries(), k as int);
                assert(opt_int(self.by_title.lookup(name@)) == newest_title(self.notes(), name@));
                lemma_newest_title(self.notes(), name@);
            }
            best = weigh(best, name, *idx, &tl, &tn, Ghost(cands), Ghost(ns + k as int), Ghost(nn));
            k += 1;
        }
        match best {
            Some((_, _, i)) => Some(node_index(i)),
            None => None,
        }
    }
}

/// Fuzzy resolution picks a best candidate: none scores higher, and none with
/// the same score has a shorter name. When nothing scores, nothing is picked.
pub proof fn lemma_fuzzy_best_is_best(cands: Seq<(Seq<char>, usize)>, tl: Seq<char>, tn: Seq<char>, k: int)
    requires
        0 <= k <= cands.len(),
    ensures
        match fuzzy_best(cands, tl, tn, k) {
            Some(b) => b.0 > 0 && exists|m: int| 0 <= m < k && #[trigger] cands[m].1 == b.2
                && score_spec(cands[m].0, tl, tn) == b.0 && utf8_len(cands[m].0) == b.1,
            None => forall|m: int| 0 <= m < k ==> score_spec(#[trigger] cands[m].0, tl, tn) <= 0,
        },
        forall|m: int| 0 <= m < k && score_spec(#[trigger] cands[m].0, tl, tn) > 0 ==> match fuzzy_best(cands, tl, tn, k) {
            Some(b) => score_spec(cands[m].0, tl, tn) < b.0 || (score_spec(cands[m].0, tl, tn) == b.0 && utf8_len(cands[m].0) >= b.1),
            None => false,
        },
    decreases k,
{
    if k > 0 {
        lemma_fuzzy_best_is_best(cands, tl, tn, k - 1);
        let b = fuzzy_best(cands, tl, tn, k - 1);
        let name = cands[k - 1].0;
        assert(cands[k - 1].1 == cands[k - 1].1);
    }
}

/// Fuzzy resolution weighs every name: when nothing matches exactly and some
/// slug or some title of the tables scores against the target, a note is
/// found, and it is one that a slug or a title names with a score at least as
/// high.
pub proof fn lemma_fuzzy_weighs_every_name(idx: GraphIndex, target: Seq<char>, sc: int)
    requires
        resolve_spec(idx.notes(), target) is None,
        sc > 0,
        (exists|k: int| 0 <= k < idx.by_slug.entries().len()
            && #[trigger] score_spec(idx.by_slug.entries()[k].0, lowercase(target), without_separators(lowercase(target))) == sc)
        || (exists|k: int| 0 <= k < idx.by_title.entries().len()
            && #[trigger] score_spec(idx.by_title.entries()[k].0, lowercase(target), without_separators(lowercase(target))) == sc),
    ensures
        idx.fuzzy_spec(target) is Some,
        ({
            let r = idx.fuzzy_spec(target)->0;
            let tl = lowercase(target);
            let tn = without_separators(tl);
            ||| exists|m: int| 0 <= m < idx.by_slug.entries().len() && idx.by_slug.entries()[m].1 == r
                    && #[trigger] score_spec(idx.by_slug.entries()[m].0, tl, tn) >= sc
            ||| exists|m: int| 0 <= m < idx.by_title.entries().len() && idx.by_title.entries()[m].1 == r
                    && #[trigger] score_spec(idx.by_title.entries()[m].0, tl, tn) >= sc
        }),
{
    let tl = lowercase(target);
    let tn = without_separators(tl);
    let sl = idx.by_slug.entries();
    let ti = idx.by_title.entries();
    let cands = idx.fuzzy_candidates();
    let ns = sl.len() as int;
    assert(cands == sl + ti);
    lemma_fuzzy_best_is_best(cands, tl, tn, cands.len() as int);
    let m0: int = if exists|k: int| 0 <= k < sl.len() && #[trigger] score_spec(sl[k].0, tl, tn) == sc {
        choose|k: int| 0 <= k < sl.len() && #[trigger] score_spec(sl[k].0, tl, tn) == sc
    } else {
        let k = choose|k: int| 0 <= k < ti.len() && #[trigger] score_spec(ti[k].0, tl, tn) == sc;
        ns + k
    };
    assert(score_spec(cands[m0].0, tl, tn) == sc);
    let b = fuzzy_best(cands, tl, tn, cands.len() as int)->0;
    assert(b.0 >= sc);
    let m = choose|m: int| 0 <= m < cands.len() && #[trigger] cands[m].1 == b.2
        && score_spec(cands[m].0, tl, tn) == b.0 && utf8_len(cands[m].0) == b.1;
    if m < ns {
        assert(sl[m] == cands[m]);
    } else {
        assert(ti[m - ns] == cands[m]);
    }
}

// ---------------------------------------------------------------- neighbourhood queries

#[verifier::external_type_specification]
#[verifier::external_body]
pub struct ExUlid(Ulid);

/// The targets of the containment entries of an edge list.
pub open spec fn contains_targets(l: Seq<(int, EdgeKind)>) -> Seq<int>
    decreases l.len(),
{
    if l.len() == 0 {
        seq![]
    } else {
        contains_targets(l.drop_last()) + if l.last().1 == EdgeKind::Contains {
            seq![l.last().0]
        } else {
            seq![]
        }
    }
}

/// The entries of an edge list that are no containment, as `(kind, node)`.
pub open spec fn reference_entries(l: Seq<(int, EdgeKind)>) -> Seq<(EdgeKind, int)>
    decreases l.len(),
{
    if l.len() == 0 {
        seq![]
    } else {
        reference_entries(l.drop_last()) + if l.last().1 != EdgeKind::Contains {
            seq![(l.last().1, l.last().0)]
        } else {
            seq![]
        }
    }
}

/// Whether some containment edge enters `x`.
pub open spec fn has_container(es: Seq<Edge>, x: int) -> bool {
    exists|i: int| 0 <= i < es.len() && #[trigger] es[i].1 == x && es[i].2 == EdgeKind::Contains
}

/// The nodes below `k` that nothing contains, in node order.
pub open spec fn roots_upto(es: Seq<Edge>, k: int) -> Seq<int>
    decreases k,
{
    if k <= 0 {
        seq![]
    } else {
        roots_upto(es, k - 1) + if has_container(es, k - 1) {
            seq![]
        } else {
            seq![k - 1]
        }
    }
}

pub open spec fn index_values(v: Seq<NodeIndex>) -> Seq<int> {
    v.map_values(|n: NodeIndex| node_index_value(n))
}

pub open spec fn ref_values(v: Seq<(EdgeKind, NodeIndex)>) -> Seq<(EdgeKind, int)> {
    v.map_values(|p: (EdgeKind, NodeIndex)| (p.0, node_index_value(p.1)))
}

proof fn lemma_incoming_has_container(es: Seq<Edge>, x: int)
    ensures
        has_container(es, x) <==> exists|m: int| 0 <= m < incoming(es, x).len() && #[trigger] incoming(es, x)[m].1 == EdgeKind::Contains,
    decreases es.len(),
{
    if es.len() > 0 {
        let rest = es.drop_last();
        lemma_incoming_has_container(rest, x);
        let e = es.last();
        let o = incoming(es, x);
        let ro = incoming(rest, x);
        if has_container(es, x) {
            let i = choose|i: int| 0 <= i < es.len() && #[trigger] es[i].1 == x && es[i].2 == EdgeKind::Contains;
            if i < es.len() - 1 {
                assert(rest[i] == es[i]);
                let m = choose|m: int| 0 <= m < ro.len() && #[trigger] ro[m].1 == EdgeKind::Contains;
                if e.1 == x {
                    assert(o[m + 1] == ro[m]);
                } else {
                    assert(o[m] == ro[m]);
                }
            } else {
                assert(o[0].1 == EdgeKind::Contains);
            }
        }
        if exists|m: int| 0 <= m < o.len() && #[trigger] o[m].1 == EdgeKind::Contains {
            let m = choose|m: int| 0 <= m < o.len() && #[trigger] o[m].1 == EdgeKind::Contains;
            if e.1 == x {
                if m == 0 {
                    assert(es[es.len() - 1].1 == x);
                } else {
                    assert(ro[m - 1].1 == EdgeKind::Contains);
                    let i = choose|i: int| 0 <= i < rest.len() && #[trigger] rest[i].1 == x && rest[i].2 == EdgeKind::Contains;
                    assert(es[i] == rest[i]);
                }
            } else {
                assert(ro[m].1 == EdgeKind::Contains);
                let i = choose|i: int| 0 <= i < rest.len() && #[trigger] rest[i].1 == x && rest[i].2 == EdgeKind::Contains;
                assert(es[i] == rest[i]);
            }
        }
    }
}

impl GraphIndex {
    /// `Ulid::generate`: a new ULID from the clock and a random source.
    #[verifier::external_body]
    pub fn generate_ulid() -> Ulid {
        Ulid::generate()
    }

    /// The nodes that `n` contains, most recently added edge first.
    pub fn children_of(&self, n: NodeIndex) -> (r: Vec<NodeIndex>)
        requires
            self.wf(),
            0 <= node_index_value(n) < self.notes().len(),
        ensures
            index_values(r@) == contains_targets(outgoing(self.edges(), node_index_value(n))),
    {
        let es = out_edges(&self.graph, n);
        let ghost l = pair_values(es@);
        let mut r: Vec<NodeIndex> = Vec::new();
        let mut i: usize = 0;
        while i < es.len()
            invariant
                l == pair_values(es@),
                i <= es@.len(),
                index_values(r@) == contains_targets(l.take(i as int)),
            decreases es.len() - i,
        {
            assert(l.take(i + 1).drop_last() =~= l.take(i as int));
            assert(l[i as int] == (node_index_value(es@[i as int].0), es@[i as int].1));
            let (t, kind) = es[i];
            if kind == EdgeKind::Contains {
                let ghost before = r@;
                r.push(t);
                assert(index_values(r@) =~= index_values(before).push(node_index_value(t)));
            }
            i += 1;
        }
        assert(l.take(l.len() as int) =~= l);
        r
    }

    fn references(v: Vec<(NodeIndex, EdgeKind)>) -> (r: Vec<(EdgeKind, NodeIndex)>)
        ensures
            ref_values(r@) == reference_entries(pair_values(v@)),
    {
        let ghost l = pair_values(v@);
        let mut r: Vec<(EdgeKind, NodeIndex)> = Vec::new();
        let mut i: usize = 0;
        while i < v.len()
            invariant
                l == pair_values(v@),
                i <= v@.len(),
                ref_values(r@) == reference_entries(l.take(i as int)),
            decreases v.len() - i,
        {
            assert(l.take(i + 1).drop_last() =~= l.take(i as int));
            assert(l[i as int] == (node_index_value(v@[i as int].0), v@[i as int].1));
            let (t, kind) = v[i];
            if kind != EdgeKind::Contains {
                let ghost before = r@;
                r.push((kind, t));
                assert(ref_values(r@) =~= ref_values(before).push((kind, node_index_value(t))));
            }
            i += 1;
        }
        assert(l.take(l.len() as int) =~= l);
        r
    }

    /// The notes that `n` refers to other than by containment, as `(kind,
    /// target)`, most recently added edge first.
    pub fn forward_refs(&self, n: NodeIndex) -> (r: Vec<(EdgeKind, NodeIndex)>)
        requires
            self.wf(),
            0 <= node_index_value(n) < self.notes().len(),
        ensures
            ref_values(r@) == reference_entries(outgoing(self.edges(), node_index_value(n))),
    {
        Self::references(out_edges(&self.graph, n))
    }

    /// The notes that refer to `n` other than by containment, as `(kind,
    /// source)`, most recently added edge first.
    pub fn backlinks_of(&self, n: NodeIndex) -> (r: Vec<(EdgeKind, NodeIndex)>)
        requires
            self.wf(),
            0 <= node_index_value(n) < self.notes().len(),
        ensures
            ref_values(r@) == reference_entries(incoming(self.edges(), node_index_value(n))),
    {
        Self::references(in_edges(&self.graph, n))
    }

    /// The notes that nothing contains, in node order.
    pub fn roots(&self) -> (r: Vec<NodeIndex>)
        requires
            self.wf(),
        ensures
            index_values(r@) == roots_upto(self.edges(), self.notes().len() as int),
    {
        let n = node_count(&self.graph);
        let mut r: Vec<NodeIndex> = Vec::new();
        let mut x: usize = 0;
        while x < n
            invariant
                n == self.notes().len() < u32::MAX,
                x <= n,
                index_values(r@) == roots_upto(self.edges(), x as int),
            decreases n - x,
        {
            let nx = node_index(x);
            let ins = in_edges(&self.graph, nx);
            proof {
                lemma_incoming_has_container(self.edges(), x as int);
            }
            let mut contained = false;
            let mut j: usize = 0;
            while j < ins.len()
                invariant
                    pair_values(ins@) == incoming(self.edges(), x as int),
                    j <= ins@.len(),
                    contained == exists|m: int| 0 <= m < j && #[trigger] incoming(self.edges(), x as int)[m].1 == EdgeKind::Contains,
                decreases ins.len() - j,
            {
                assert(incoming(self.edges(), x as int)[j as int] == (node_index_value(ins@[j as int].0), ins@[j as int].1));
                let ghost inc = incoming(self.edges(), x as int);
                let ghost was = contained;
                if ins[j].1 == EdgeKind::Contains {
                    contained = true;
                }
                proof {
                    if contained && !was {
                        assert(inc[j as int].1 == EdgeKind::Contains);
                    }
                    if was {
                        let m = choose|m: int| 0 <= m < j && #[trigger] inc[m].1 == EdgeKind::Contains;
                        assert(0 <= m < j + 1 && inc[m].1 == EdgeKind::Contains);
                    }
                }
                j += 1;
            }
            if !contained {
                let ghost before = r@;
                r.push(nx);
                assert(index_values(r@) =~= index_values(before).push(x as int));
            }
            x += 1;
        }
        r
    }
}

pub proof fn lemma_roots_valid(es: Seq<Edge>, k: int)
    ensures
        forall|i: int| 0 <= i < roots_upto(es, k).len() ==> 0 <= #[trigger] roots_upto(es, k)[i] < k,
    decreases k,
{
    if k > 0 {
        lemma_roots_valid(es, k - 1);
        let r = roots_upto(es, k);
        let rr = roots_upto(es, k - 1);
        assert forall|i: int| 0 <= i < r.len() implies 0 <= #[trigger] r[i] < k by {
            if i < rr.len() {
                assert(r[i] == rr[i]);
            }
        }
    }
}

impl GraphIndex {
    /// Fuzzy resolution only ever names a note of the index.
    pub proof fn lemma_fuzzy_in_range(&self, target: Seq<char>)
        requires
            self.wf(),
        ensures
            self.fuzzy_spec(target) matches Some(t) ==> 0 <= t < self.notes().len(),
    {
        lemma_resolve_bounds(self.notes(), target);
        let cands = self.fuzzy_candidates();
        let tl = lowercase(target);
        let tn = without_separators(tl);
        lemma_fuzzy_best_is_best(cands, tl, tn, cands.len() as int);
        if let Some(b) = fuzzy_best(cands, tl, tn, cands.len() as int) {
            let m = choose|m: int| 0 <= m < cands.len() && #[trigger] cands[m].1 == b.2 && score_spec(cands[m].0, tl, tn) == b.0 && utf8_len(cands[m].0) == b.1;
            let ns = self.by_slug.entries().len();
            if m < ns {
                let e = self.by_slug.entries();
                assert(e[m] == cands[m]);
                lemma_lookup_at(e, m);
                assert(opt_int(self.by_slug.lookup(e[m].0)) == last_match(self.notes(), slug_keyf(), e[m].0));
                lemma_last_match_bounds(self.notes(), slug_keyf(), e[m].0);
            } else {
                let e = self.by_title.entries();
                assert(e[m - ns] == cands[m]);
                lemma_lookup_at(e, m - ns);
                assert(opt_int(self.by_title.lookup(e[m - ns].0)) == newest_title(self.notes(), e[m - ns].0));
                lemma_newest_title(self.notes(), e[m - ns].0);
            }
        }
    }
}
} // verus!
