//! What holds of every index that `GraphIndex::build` makes: how references
//! resolve, where containment comes from, and which edges links add.
use vstd::prelude::*;
use crate::model::{Note, NoteType, title_of};
use crate::store::EdgeKind;
use crate::text::views;
use crate::graph::{
    Edge, id_key, id_keyf, title_keyf, slug_keyf, last_match, newest_title, lemma_newest_title, resolve_spec, parent_refs,
    link_resolve, lemma_link_resolve,
    parent_edges_of, parent_edges_upto, member_edges_of, member_edges_upto, is_structure,
    has_edge, link_edges_of, containment_edges, edges_upto, index_edges, contains_edge,
    block_owner, unresolved_transclusions_of, unresolved_transclusions_upto,
};

verus! {

// ---------------------------------------------------------------- resolution

proof fn lemma_last_match_iff(notes: Seq<Note>, key: spec_fn(Note) -> Option<Seq<char>>, t: Seq<char>)
    ensures
        last_match(notes, key, t) is Some <==> exists|i: int| 0 <= i < notes.len() && #[trigger] key(notes[i]) == Some(t),
        last_match(notes, key, t) matches Some(i) ==> 0 <= i < notes.len() && key(notes[i]) == Some(t)
            && forall|j: int| i < j < notes.len() ==> #[trigger] key(notes[j]) != Some(t),
    decreases notes.len(),
{
    if notes.len() > 0 {
        let rest = notes.drop_last();
        lemma_last_match_iff(rest, key, t);
        if key(notes.last()) != Some(t) {
            if exists|i: int| 0 <= i < notes.len() && #[trigger] key(notes[i]) == Some(t) {
                let i = choose|i: int| 0 <= i < notes.len() && #[trigger] key(notes[i]) == Some(t);
                assert(i < notes.len() - 1);
                assert(rest[i] == notes[i]);
            }
            if let Some(i) = last_match(rest, key, t) {
                assert(rest[i] == notes[i]);
                assert forall|j: int| i < j < notes.len() implies #[trigger] key(notes[j]) != Some(t) by {
                    if j < notes.len() - 1 {
                        assert(rest[j] == notes[j]);
                    }
                }
            }
        }
    }
}

/// Resolution: an exact id wins, then an exact title, then an exact slug. When
/// several notes carry the winning id or slug, the last of them is named; when
/// several carry the winning title, the most recently edited (see
/// `lemma_newest_title`). A reference resolves exactly when some note carries
/// it as id, title or slug.
pub proof fn lemma_resolution_precedence(notes: Seq<Note>, t: Seq<char>)
    ensures
        (exists|i: int| 0 <= i < notes.len() && #[trigger] id_key(notes[i]) == Some(t)) ==> resolve_spec(notes, t) == last_match(notes, id_keyf(), t),
        !(exists|i: int| 0 <= i < notes.len() && #[trigger] id_key(notes[i]) == Some(t))
            && (exists|i: int| 0 <= i < notes.len() && #[trigger] title_of(notes[i]) == t)
            ==> resolve_spec(notes, t) == newest_title(notes, t),
        resolve_spec(notes, t) is Some <==> exists|i: int| 0 <= i < notes.len() && (#[trigger] id_key(notes[i]) == Some(t) || title_of(notes[i]) == t || notes[i].slug@ == t),
        resolve_spec(notes, t) matches Some(i) ==> 0 <= i < notes.len() && (id_key(notes[i]) == Some(t) || title_of(notes[i]) == t || notes[i].slug@ == t),
{
    lemma_last_match_iff(notes, id_keyf(), t);
    lemma_newest_title(notes, t);
    lemma_last_match_iff(notes, slug_keyf(), t);
    assert forall|i: int| 0 <= i < notes.len() implies (id_keyf()(notes[i]) == Some(t) <==> #[trigger] id_key(notes[i]) == Some(t)) && (title_keyf()(notes[i]) == Some(t) <==> title_of(notes[i]) == t) && (slug_keyf()(notes[i]) == Some(t) <==> notes[i].slug@ == t) by {}
    if exists|i: int| 0 <= i < notes.len() && (#[trigger] id_key(notes[i]) == Some(t) || title_of(notes[i]) == t || notes[i].slug@ == t) {
        let i = choose|i: int| 0 <= i < notes.len() && (#[trigger] id_key(notes[i]) == Some(t) || title_of(notes[i]) == t || notes[i].slug@ == t);
        if id_key(notes[i]) == Some(t) {
            assert(id_keyf()(notes[i]) == Some(t));
        } else if title_of(notes[i]) == t {
            assert(title_keyf()(notes[i]) == Some(t));
        } else {
            assert(slug_keyf()(notes[i]) == Some(t));
        }
    }
    if (exists|i: int| 0 <= i < notes.len() && #[trigger] id_key(notes[i]) == Some(t)) {
        let i = choose|i: int| 0 <= i < notes.len() && #[trigger] id_key(notes[i]) == Some(t);
        assert(id_keyf()(notes[i]) == Some(t));
    }
    if (exists|i: int| 0 <= i < notes.len() && #[trigger] title_of(notes[i]) == t) {
        let i = choose|i: int| 0 <= i < notes.len() && #[trigger] title_of(notes[i]) == t;
        assert(title_keyf()(notes[i]) == Some(t));
    }
    if (exists|i: int| 0 <= i < notes.len() && #[trigger] id_keyf()(notes[i]) == Some(t)) {
        let i = choose|i: int| 0 <= i < notes.len() && #[trigger] id_keyf()(notes[i]) == Some(t);
        assert(id_key(notes[i]) == Some(t));
    }
}

// ---------------------------------------------------------------- edge lists

/// `a` is a prefix of `b`.
pub open spec fn prefix_of(a: Seq<Edge>, b: Seq<Edge>) -> bool {
    a.len() <= b.len() && forall|i: int| 0 <= i < a.len() ==> #[trigger] b[i] == a[i]
}

/// Every edge from position `from` on is a link edge.
pub open spec fn links_from(es: Seq<Edge>, from: int) -> bool {
    forall|i: int| from <= i < es.len() ==> (#[trigger] es[i]).2 == EdgeKind::Links
}

/// No link edge repeats the endpoints of an earlier edge.
pub open spec fn links_unique(es: Seq<Edge>) -> bool {
    forall|i: int, j: int| 0 <= i < j < es.len() && (#[trigger] es[j]).2 == EdgeKind::Links ==> !((#[trigger] es[i]).0 == es[j].0 && es[i].1 == es[j].1)
}

proof fn lemma_link_edges_of(notes: Seq<Note>, base: Seq<Edge>, n: int, ls: Seq<Seq<char>>)
    ensures
        prefix_of(base, link_edges_of(notes, base, n, ls)),
        links_from(base, base.len() as int) ==> links_from(link_edges_of(notes, base, n, ls), base.len() as int),
        links_unique(base) ==> links_unique(link_edges_of(notes, base, n, ls)),
        forall|j: int| 0 <= j < ls.len() && #[trigger] link_resolve(notes, containment_edges(notes), n, ls[j]) is Some ==> has_edge(link_edges_of(notes, base, n, ls), n, link_resolve(notes, containment_edges(notes), n, ls[j])->0),
    decreases ls.len(),
{
    if ls.len() > 0 {
        let rest = ls.drop_last();
        lemma_link_edges_of(notes, base, n, rest);
        let acc = link_edges_of(notes, base, n, rest);
        let r = link_edges_of(notes, base, n, ls);
        assert(prefix_of(acc, r));
        assert forall|j: int| 0 <= j < ls.len() && #[trigger] link_resolve(notes, containment_edges(notes), n, ls[j]) is Some implies has_edge(r, n, link_resolve(notes, containment_edges(notes), n, ls[j])->0) by {
            let t = link_resolve(notes, containment_edges(notes), n, ls[j])->0;
            if j < ls.len() - 1 {
                assert(rest[j] == ls[j]);
                assert(link_resolve(notes, containment_edges(notes), n, rest[j]) is Some);
                let i = choose|i: int| 0 <= i < acc.len() && #[trigger] acc[i].0 == n && acc[i].1 == t;
                assert(r[i] == acc[i]);
            } else {
                if !has_edge(acc, n, t) {
                    assert(r[acc.len() as int].0 == n);
                } else {
                    let i = choose|i: int| 0 <= i < acc.len() && #[trigger] acc[i].0 == n && acc[i].1 == t;
                    assert(r[i] == acc[i]);
                }
            }
        }
        if links_unique(base) {
            assert(links_unique(acc));
            if r.len() > acc.len() {
                let t = link_resolve(notes, containment_edges(notes), n, ls.last())->0;
                assert(!has_edge(acc, n, t));
                assert forall|i: int, j: int| 0 <= i < j < r.len() && (#[trigger] r[j]).2 == EdgeKind::Links implies !((#[trigger] r[i]).0 == r[j].0 && r[i].1 == r[j].1) by {
                    if j < acc.len() {
                        assert(r[i] == acc[i] && r[j] == acc[j]);
                    } else {
                        assert(r[i] == acc[i]);
                        assert(r[j] == (n, t, EdgeKind::Links));
                    }
                }
            }
        }
    }
}

proof fn lemma_edges_upto(notes: Seq<Note>, k: int)
    requires
        k <= notes.len(),
    ensures
        prefix_of(containment_edges(notes), edges_upto(notes, k)),
        links_from(edges_upto(notes, k), containment_edges(notes).len() as int),
        links_unique(containment_edges(notes)) ==> links_unique(edges_upto(notes, k)),
        forall|k2: int| 0 <= k2 <= k ==> #[trigger] prefix_of(edges_upto(notes, k2), edges_upto(notes, k)),
    decreases k,
{
    if k > 0 {
        lemma_edges_upto(notes, k - 1);
        lemma_link_edges_of(notes, edges_upto(notes, k - 1), k - 1, views(notes[k - 1].links@));
        let a = edges_upto(notes, k - 1);
        let b = edges_upto(notes, k);
        assert forall|k2: int| 0 <= k2 <= k implies #[trigger] prefix_of(edges_upto(notes, k2), b) by {
            if k2 < k {
                let c = edges_upto(notes, k2);
                assert(prefix_of(c, a));
                assert forall|i: int| 0 <= i < c.len() implies #[trigger] b[i] == c[i] by {
                    assert(a[i] == c[i]);
                }
            }
        }
        let c = containment_edges(notes);
        assert forall|i: int| 0 <= i < c.len() implies #[trigger] b[i] == c[i] by {
            assert(a[i] == c[i]);
        }
        assert forall|i: int| c.len() <= i < b.len() implies (#[trigger] b[i]).2 == EdgeKind::Links by {
            if i < a.len() {
                assert(b[i] == a[i]);
            }
        }
    } else {
        assert forall|k2: int| 0 <= k2 <= k implies #[trigger] prefix_of(edges_upto(notes, k2), edges_upto(notes, k)) by {
            assert(k2 == 0);
        }
    }
}

// ---------------------------------------------------------------- containment

proof fn lemma_parent_edges_of(notes: Seq<Note>, c: int, ps: Seq<Seq<char>>)
    ensures
        forall|i: int| 0 <= i < parent_edges_of(notes, c, ps).len() ==> {
            let e = #[trigger] parent_edges_of(notes, c, ps)[i];
            &&& e.1 == c
            &&& e.2 == EdgeKind::Contains
            &&& exists|j: int| 0 <= j < ps.len() && #[trigger] resolve_spec(notes, ps[j]) == Some(e.0)
        },
        forall|j: int| 0 <= j < ps.len() && (#[trigger] resolve_spec(notes, ps[j])) is Some ==> exists|i: int| 0 <= i < parent_edges_of(notes, c, ps).len() && #[trigger] parent_edges_of(notes, c, ps)[i] == (resolve_spec(notes, ps[j])->0, c, EdgeKind::Contains),
    decreases ps.len(),
{
    if ps.len() > 0 {
        let rest = ps.drop_last();
        lemma_parent_edges_of(notes, c, rest);
        let a = parent_edges_of(notes, c, rest);
        let b = parent_edges_of(notes, c, ps);
        assert forall|i: int| 0 <= i < b.len() implies {
            let e = #[trigger] b[i];
            &&& e.1 == c
            &&& e.2 == EdgeKind::Contains
            &&& exists|j: int| 0 <= j < ps.len() && #[trigger] resolve_spec(notes, ps[j]) == Some(e.0)
        } by {
            if i < a.len() {
                assert(b[i] == a[i]);
                let j = choose|j: int| 0 <= j < rest.len() && #[trigger] resolve_spec(notes, rest[j]) == Some(a[i].0);
                assert(rest[j] == ps[j]);
            } else {
                assert(resolve_spec(notes, ps[ps.len() - 1]) == Some(b[i].0));
            }
        }
        assert forall|j: int| 0 <= j < ps.len() && (#[trigger] resolve_spec(notes, ps[j])) is Some implies exists|i: int| 0 <= i < b.len() && #[trigger] b[i] == (resolve_spec(notes, ps[j])->0, c, EdgeKind::Contains) by {
            if j < ps.len() - 1 {
                assert(rest[j] == ps[j]);
                assert(resolve_spec(notes, rest[j]) is Some);
                let i = choose|i: int| 0 <= i < a.len() && #[trigger] a[i] == (resolve_spec(notes, rest[j])->0, c, EdgeKind::Contains);
                assert(b[i] == a[i]);
            } else {
                assert(b[a.len() as int] == (resolve_spec(notes, ps[j])->0, c, EdgeKind::Contains));
            }
        }
    }
}

proof fn lemma_parent_edges_upto(notes: Seq<Note>, k: int)
    requires
        k <= notes.len(),
    ensures
        forall|i: int| 0 <= i < parent_edges_upto(notes, k).len() ==> {
            let e = #[trigger] parent_edges_upto(notes, k)[i];
            &&& 0 <= e.1 < k
            &&& e.2 == EdgeKind::Contains
            &&& exists|j: int| 0 <= j < parent_refs(notes[e.1]).len() && #[trigger] resolve_spec(notes, parent_refs(notes[e.1])[j]) == Some(e.0)
        },
        forall|c: int, j: int| 0 <= c < k && 0 <= j < parent_refs(notes[c]).len() && (#[trigger] resolve_spec(notes, parent_refs(notes[c])[j])) is Some
            ==> exists|i: int| 0 <= i < parent_edges_upto(notes, k).len() && #[trigger] parent_edges_upto(notes, k)[i] == (resolve_spec(notes, parent_refs(notes[c])[j])->0, c, EdgeKind::Contains),
    decreases k,
{
    if k > 0 {
        lemma_parent_edges_upto(notes, k - 1);
        lemma_parent_edges_of(notes, k - 1, parent_refs(notes[k - 1]));
        let a = parent_edges_upto(notes, k - 1);
        let p = parent_edges_of(notes, k - 1, parent_refs(notes[k - 1]));
        let b = parent_edges_upto(notes, k);
        assert(b == a + p);
        assert forall|i: int| 0 <= i < b.len() implies {
            let e = #[trigger] b[i];
            &&& 0 <= e.1 < k
            &&& e.2 == EdgeKind::Contains
            &&& exists|j: int| 0 <= j < parent_refs(notes[e.1]).len() && #[trigger] resolve_spec(notes, parent_refs(notes[e.1])[j]) == Some(e.0)
        } by {
            if i < a.len() {
                assert(b[i] == a[i]);
            } else {
                assert(b[i] == p[i - a.len()]);
            }
        }
        assert forall|c: int, j: int| 0 <= c < k && 0 <= j < parent_refs(notes[c]).len() && (#[trigger] resolve_spec(notes, parent_refs(notes[c])[j])) is Some
            implies exists|i: int| 0 <= i < b.len() && #[trigger] b[i] == (resolve_spec(notes, parent_refs(notes[c])[j])->0, c, EdgeKind::Contains) by {
            let e = (resolve_spec(notes, parent_refs(notes[c])[j])->0, c, EdgeKind::Contains);
            if c < k - 1 {
                let i = choose|i: int| 0 <= i < a.len() && #[trigger] a[i] == e;
                assert(b[i] == a[i]);
            } else {
                let i = choose|i: int| 0 <= i < p.len() && #[trigger] p[i] == e;
                assert(b[a.len() + i] == p[i]);
            }
        }
    }
}

proof fn lemma_member_edges_of(notes: Seq<Note>, s: int, ls: Seq<Seq<char>>)
    ensures
        forall|i: int| 0 <= i < member_edges_of(notes, s, ls).len() ==> {
            let e = #[trigger] member_edges_of(notes, s, ls)[i];
            &&& e.0 == s
            &&& e.2 == EdgeKind::Contains
            &&& notes[e.1].frontmatter.parents is None
        },
        forall|j: int| 0 <= j < ls.len() && (#[trigger] resolve_spec(notes, ls[j])) is Some && notes[resolve_spec(notes, ls[j])->0].frontmatter.parents is None
            ==> exists|i: int| 0 <= i < member_edges_of(notes, s, ls).len() && #[trigger] member_edges_of(notes, s, ls)[i] == (s, resolve_spec(notes, ls[j])->0, EdgeKind::Contains),
    decreases ls.len(),
{
    if ls.len() > 0 {
        let rest = ls.drop_last();
        lemma_member_edges_of(notes, s, rest);
        let a = member_edges_of(notes, s, rest);
        let b = member_edges_of(notes, s, ls);
        assert forall|i: int| 0 <= i < b.len() implies {
            let e = #[trigger] b[i];
            &&& e.0 == s
            &&& e.2 == EdgeKind::Contains
            &&& notes[e.1].frontmatter.parents is None
        } by {
            if i < a.len() {
                assert(b[i] == a[i]);
            }
        }
        assert forall|j: int| 0 <= j < ls.len() && (#[trigger] resolve_spec(notes, ls[j])) is Some && notes[resolve_spec(notes, ls[j])->0].frontmatter.parents is None
            implies exists|i: int| 0 <= i < b.len() && #[trigger] b[i] == (s, resolve_spec(notes, ls[j])->0, EdgeKind::Contains) by {
            if j < ls.len() - 1 {
                assert(rest[j] == ls[j]);
                assert(resolve_spec(notes, rest[j]) is Some);
                let i = choose|i: int| 0 <= i < a.len() && #[trigger] a[i] == (s, resolve_spec(notes, rest[j])->0, EdgeKind::Contains);
                assert(b[i] == a[i]);
            } else {
                assert(b[a.len() as int] == (s, resolve_spec(notes, ls[j])->0, EdgeKind::Contains));
            }
        }
    }
}

proof fn lemma_member_edges_upto(notes: Seq<Note>, k: int)
    requires
        k <= notes.len(),
    ensures
        forall|i: int| 0 <= i < member_edges_upto(notes, k).len() ==> {
            let e = #[trigger] member_edges_upto(notes, k)[i];
            &&& e.2 == EdgeKind::Contains
            &&& notes[e.1].frontmatter.parents is None
        },
        forall|s: int, j: int| 0 <= s < k && is_structure(notes[s]) && 0 <= j < views(notes[s].links@).len()
            && (#[trigger] resolve_spec(notes, views(notes[s].links@)[j])) is Some
            && notes[resolve_spec(notes, views(notes[s].links@)[j])->0].frontmatter.parents is None
            ==> exists|i: int| 0 <= i < member_edges_upto(notes, k).len() && #[trigger] member_edges_upto(notes, k)[i] == (s, resolve_spec(notes, views(notes[s].links@)[j])->0, EdgeKind::Contains),
    decreases k,
{
    if k > 0 {
        lemma_member_edges_upto(notes, k - 1);
        let a = member_edges_upto(notes, k - 1);
        let b = member_edges_upto(notes, k);
        let ls = views(notes[k - 1].links@);
        lemma_member_edges_of(notes, k - 1, ls);
        let p = if is_structure(notes[k - 1]) {
            member_edges_of(notes, k - 1, ls)
        } else {
            seq![]
        };
        assert(b == a + p);
        assert forall|i: int| 0 <= i < b.len() implies {
            let e = #[trigger] b[i];
            &&& e.2 == EdgeKind::Contains
            &&& notes[e.1].frontmatter.parents is None
        } by {
            if i < a.len() {
                assert(b[i] == a[i]);
            } else {
                assert(b[i] == p[i - a.len()]);
            }
        }
        assert forall|s: int, j: int| 0 <= s < k && is_structure(notes[s]) && 0 <= j < views(notes[s].links@).len()
            && (#[trigger] resolve_spec(notes, views(notes[s].links@)[j])) is Some
            && notes[resolve_spec(notes, views(notes[s].links@)[j])->0].frontmatter.parents is None
            implies exists|i: int| 0 <= i < b.len() && #[trigger] b[i] == (s, resolve_spec(notes, views(notes[s].links@)[j])->0, EdgeKind::Contains) by {
            let e = (s, resolve_spec(notes, views(notes[s].links@)[j])->0, EdgeKind::Contains);
            if s < k - 1 {
                let i = choose|i: int| 0 <= i < a.len() && #[trigger] a[i] == e;
                assert(b[i] == a[i]);
            } else {
                let i = choose|i: int| 0 <= i < p.len() && #[trigger] p[i] == e;
                assert(b[a.len() + i] == p[i]);
            }
        }
    }
}

proof fn lemma_index_edges_contain(notes: Seq<Note>, e: Edge)
    requires
        exists|i: int| 0 <= i < containment_edges(notes).len() && #[trigger] containment_edges(notes)[i] == e,
    ensures
        exists|i: int| 0 <= i < index_edges(notes).len() && #[trigger] index_edges(notes)[i] == e,
{
    lemma_edges_upto(notes, notes.len() as int);
    let i = choose|i: int| 0 <= i < containment_edges(notes).len() && #[trigger] containment_edges(notes)[i] == e;
    assert(index_edges(notes)[i] == containment_edges(notes)[i]);
}

/// A resolved `parents` reference makes the note it names contain the note
/// that lists it.
pub proof fn lemma_parents_become_containment(notes: Seq<Note>, c: int, j: int)
    requires
        0 <= c < notes.len(),
        0 <= j < parent_refs(notes[c]).len(),
        resolve_spec(notes, parent_refs(notes[c])[j]) is Some,
    ensures
        contains_edge(index_edges(notes), resolve_spec(notes, parent_refs(notes[c])[j])->0, c),
{
    let p = resolve_spec(notes, parent_refs(notes[c])[j])->0;
    let n = notes.len() as int;
    lemma_parent_edges_upto(notes, n);
    let pu = parent_edges_upto(notes, n);
    let i = choose|i: int| 0 <= i < pu.len() && #[trigger] pu[i] == (p, c, EdgeKind::Contains);
    assert(containment_edges(notes)[i] == pu[i]);
    lemma_index_edges_contain(notes, (p, c, EdgeKind::Contains));
}

/// An area or project contains each note that it links to and that declares
/// no `parents` of its own.
pub proof fn lemma_membership_when_parents_absent(notes: Seq<Note>, s: int, j: int)
    requires
        0 <= s < notes.len(),
        is_structure(notes[s]),
        0 <= j < views(notes[s].links@).len(),
        resolve_spec(notes, views(notes[s].links@)[j]) is Some,
        notes[resolve_spec(notes, views(notes[s].links@)[j])->0].frontmatter.parents is None,
    ensures
        contains_edge(index_edges(notes), s, resolve_spec(notes, views(notes[s].links@)[j])->0),
{
    let t = resolve_spec(notes, views(notes[s].links@)[j])->0;
    let n = notes.len() as int;
    lemma_member_edges_upto(notes, n);
    let mu = member_edges_upto(notes, n);
    let pu = parent_edges_upto(notes, n);
    let i = choose|i: int| 0 <= i < mu.len() && #[trigger] mu[i] == (s, t, EdgeKind::Contains);
    assert(containment_edges(notes)[pu.len() + i] == mu[i]);
    lemma_index_edges_contain(notes, (s, t, EdgeKind::Contains));
}

/// Area and project notes declare members: a link of an area or a project
/// that names a note without `parents` gives a containment edge from the area
/// or project to that note.
pub proof fn lemma_areas_and_projects_declare_members(notes: Seq<Note>, s: int, j: int)
    requires
        0 <= s < notes.len(),
        notes[s].frontmatter.note_type == NoteType::Area || notes[s].frontmatter.note_type == NoteType::Project,
        0 <= j < notes[s].links@.len(),
        resolve_spec(notes, notes[s].links@[j]@) is Some,
        notes[resolve_spec(notes, notes[s].links@[j]@)->0].frontmatter.parents is None,
    ensures
        contains_edge(index_edges(notes), s, resolve_spec(notes, notes[s].links@[j]@)->0),
{
    assert(views(notes[s].links@)[j] == notes[s].links@[j]@);
    lemma_membership_when_parents_absent(notes, s, j);
}

/// Explicit `parents` win: a note that declares `parents` (even an empty list)
/// is contained only by the notes that those references name.
pub proof fn lemma_explicit_parents_win(notes: Seq<Note>, x: int, t: int)
    requires
        0 <= t < notes.len(),
        notes[t].frontmatter.parents is Some,
        contains_edge(index_edges(notes), x, t),
    ensures
        exists|j: int| 0 <= j < parent_refs(notes[t]).len() && #[trigger] resolve_spec(notes, parent_refs(notes[t])[j]) == Some(x),
{
    let n = notes.len() as int;
    lemma_edges_upto(notes, n);
    lemma_parent_edges_upto(notes, n);
    lemma_member_edges_upto(notes, n);
    let es = index_edges(notes);
    let c = containment_edges(notes);
    let pu = parent_edges_upto(notes, n);
    let mu = member_edges_upto(notes, n);
    let i = choose|i: int| 0 <= i < es.len() && #[trigger] es[i] == (x, t, EdgeKind::Contains);
    assert(i < c.len()) by {
        if i >= c.len() {
            assert(es[i].2 == EdgeKind::Links);
        }
    }
    assert(es[i] == c[i]);
    if i < pu.len() {
        assert(c[i] == pu[i]);
    } else {
        assert(c[i] == mu[i - pu.len()]);
    }
}

/// Every link that resolves gives an edge from the linking note to the note it
/// names in its containment context (a containment edge already there counts).
pub proof fn lemma_resolved_links_give_edges(notes: Seq<Note>, n: int, j: int)
    requires
        0 <= n < notes.len(),
        0 <= j < views(notes[n].links@).len(),
        resolve_spec(notes, views(notes[n].links@)[j]) is Some,
    ensures
        link_resolve(notes, containment_edges(notes), n, views(notes[n].links@)[j]) is Some,
        has_edge(index_edges(notes), n, link_resolve(notes, containment_edges(notes), n, views(notes[n].links@)[j])->0),
{
    lemma_link_resolve(notes, containment_edges(notes), n, views(notes[n].links@)[j]);
    let t = link_resolve(notes, containment_edges(notes), n, views(notes[n].links@)[j])->0;
    lemma_link_edges_of(notes, edges_upto(notes, n), n, views(notes[n].links@));
    let a = edges_upto(notes, n + 1);
    lemma_edges_upto(notes, notes.len() as int);
    assert(prefix_of(a, index_edges(notes)));
    let i = choose|i: int| 0 <= i < a.len() && #[trigger] a[i].0 == n && a[i].1 == t;
    assert(index_edges(notes)[i] == a[i]);
}

/// Links never duplicate an edge: a link edge is only added between notes that
/// no earlier edge joins in that direction.
pub proof fn lemma_link_edges_unique(notes: Seq<Note>)
    ensures
        links_unique(index_edges(notes)),
{
    let n = notes.len() as int;
    lemma_parent_edges_upto(notes, n);
    lemma_member_edges_upto(notes, n);
    let c = containment_edges(notes);
    let pu = parent_edges_upto(notes, n);
    let mu = member_edges_upto(notes, n);
    assert forall|i: int| 0 <= i < c.len() implies (#[trigger] c[i]).2 == EdgeKind::Contains by {
        if i < pu.len() {
            assert(c[i] == pu[i]);
        } else {
            assert(c[i] == mu[i - pu.len()]);
        }
    }
    assert(links_unique(c));
    lemma_edges_upto(notes, n);
}

// ---------------------------------------------------------------- transclusions

proof fn lemma_unresolved_transclusions_of(notes: Seq<Note>, n: int, ts: Seq<Seq<char>>)
    ensures
        forall|i: int| 0 <= i < unresolved_transclusions_of(notes, n, ts).len() ==> {
            let u = #[trigger] unresolved_transclusions_of(notes, n, ts)[i];
            &&& u.0 == notes[n].slug@
            &&& block_owner(notes, u.1) is None
            &&& exists|j: int| 0 <= j < ts.len() && #[trigger] ts[j] == u.1
        },
        forall|j: int| 0 <= j < ts.len() && block_owner(notes, #[trigger] ts[j]) is None ==> exists|i: int| 0 <= i < unresolved_transclusions_of(notes, n, ts).len() && #[trigger] unresolved_transclusions_of(notes, n, ts)[i] == (notes[n].slug@, ts[j]),
    decreases ts.len(),
{
    if ts.len() > 0 {
        let rest = ts.drop_last();
        lemma_unresolved_transclusions_of(notes, n, rest);
        let a = unresolved_transclusions_of(notes, n, rest);
        let b = unresolved_transclusions_of(notes, n, ts);
        assert forall|i: int| 0 <= i < b.len() implies {
            let u = #[trigger] b[i];
            &&& u.0 == notes[n].slug@
            &&& block_owner(notes, u.1) is None
            &&& exists|j: int| 0 <= j < ts.len() && #[trigger] ts[j] == u.1
        } by {
            if i < a.len() {
                assert(b[i] == a[i]);
                let j = choose|j: int| 0 <= j < rest.len() && #[trigger] rest[j] == a[i].1;
                assert(ts[j] == rest[j]);
            } else {
                assert(ts[ts.len() - 1] == b[i].1);
            }
        }
        assert forall|j: int| 0 <= j < ts.len() && block_owner(notes, #[trigger] ts[j]) is None implies exists|i: int| 0 <= i < b.len() && #[trigger] b[i] == (notes[n].slug@, ts[j]) by {
            if j < ts.len() - 1 {
                assert(rest[j] == ts[j]);
                let i = choose|i: int| 0 <= i < a.len() && #[trigger] a[i] == (notes[n].slug@, rest[j]);
                assert(b[i] == a[i]);
            } else {
                assert(b[a.len() as int] == (notes[n].slug@, ts[j]));
            }
        }
    }
}

/// A transclusion is reported as unresolved exactly when no block carries its
/// id: every report names a missing block, and every transclusion of a
/// missing block is reported with the slug of its note.
pub proof fn lemma_unresolved_transclusions(notes: Seq<Note>, k: int)
    requires
        0 <= k <= notes.len(),
    ensures
        forall|i: int| 0 <= i < unresolved_transclusions_upto(notes, k).len() ==> block_owner(notes, (#[trigger] unresolved_transclusions_upto(notes, k)[i]).1) is None,
        forall|n: int, j: int| 0 <= n < k && 0 <= j < views(notes[n].transclusions@).len() && block_owner(notes, #[trigger] views(notes[n].transclusions@)[j]) is None
            ==> exists|i: int| 0 <= i < unresolved_transclusions_upto(notes, k).len() && #[trigger] unresolved_transclusions_upto(notes, k)[i] == (notes[n].slug@, views(notes[n].transclusions@)[j]),
    decreases k,
{
    if k > 0 {
        lemma_unresolved_transclusions(notes, k - 1);
        let ts = views(notes[k - 1].transclusions@);
        lemma_unresolved_transclusions_of(notes, k - 1, ts);
        let a = unresolved_transclusions_upto(notes, k - 1);
        let p = unresolved_transclusions_of(notes, k - 1, ts);
        let b = unresolved_transclusions_upto(notes, k);
        assert(b == a + p);
        assert forall|i: int| 0 <= i < b.len() implies block_owner(notes, (#[trigger] b[i]).1) is None by {
            if i < a.len() {
                assert(b[i] == a[i]);
            } else {
                assert(b[i] == p[i - a.len()]);
            }
        }
        assert forall|n: int, j: int| 0 <= n < k && 0 <= j < views(notes[n].transclusions@).len() && block_owner(notes, #[trigger] views(notes[n].transclusions@)[j]) is None
            implies exists|i: int| 0 <= i < b.len() && #[trigger] b[i] == (notes[n].slug@, views(notes[n].transclusions@)[j]) by {
            let u = (notes[n].slug@, views(notes[n].transclusions@)[j]);
            if n < k - 1 {
                let i = choose|i: int| 0 <= i < a.len() && #[trigger] a[i] == u;
                assert(b[i] == a[i]);
            } else {
                let i = choose|i: int| 0 <= i < p.len() && #[trigger] p[i] == u;
                assert(b[a.len() + i] == p[i]);
            }
        }
    }
}

} // verus!
