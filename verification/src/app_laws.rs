//! Laws of the ego outline: each note is shown once, depths step down one
//! level at a time, and unfolding a line then folding it again gives back
//! the state from before.
use vstd::prelude::*;
use crate::app::{App, EntryView, RefKind, ViewMode, ego_list, ego_kids, expanded_has, forward_kind, backward_kind, descended, ascended, clamp_focus, folded};
use crate::graph::{count_false, lemma_count_false_set};
use crate::store::{EdgeKind, incoming, outgoing};
use crate::graph::reference_entries;

verus! {

/// `t` marks everything that `s` marks, and has its length.
pub open spec fn covers(s: Seq<bool>, t: Seq<bool>) -> bool {
    t.len() == s.len() && forall|x: int| 0 <= x < s.len() && s[x] ==> #[trigger] t[x]
}

proof fn lemma_count_false_covers(s: Seq<bool>, t: Seq<bool>)
    requires
        covers(s, t),
    ensures
        count_false(t) <= count_false(s),
    decreases s.len(),
{
    if s.len() > 0 {
        let s0 = s.drop_last();
        let t0 = t.drop_last();
        assert(covers(s0, t0)) by {
            assert forall|x: int| 0 <= x < s0.len() && s0[x] implies #[trigger] t0[x] by {
                assert(s0[x] == s[x]);
                assert(t0[x] == t[x]);
            }
        }
        lemma_count_false_covers(s0, t0);
        assert(s.last() ==> t[t.len() - 1]);
    }
}

/// The lines `out` show notes that were not marked `before` and are marked
/// `after`, each once.
pub open spec fn lines_fresh(out: Seq<EntryView>, before: Seq<bool>, after: Seq<bool>) -> bool {
    &&& forall|i: int| 0 <= i < out.len() ==> 0 <= #[trigger] out[i].0 < before.len() && !before[out[i].0] && after[out[i].0]
    &&& forall|i: int, j: int| 0 <= i < j < out.len() ==> #[trigger] out[i].0 != #[trigger] out[j].0
}

/// The outline under a list of children only marks more notes, and shows
/// notes not marked before, each once.
proof fn lemma_ego_list_fresh(
    es: Seq<(int, int, EdgeKind)>,
    exp: Seq<petgraph::graph::NodeIndex>,
    kids: Seq<(int, RefKind)>,
    depth: int,
    seen: Seq<bool>,
)
    ensures
        covers(seen, ego_list(es, exp, kids, depth, seen).1),
        lines_fresh(ego_list(es, exp, kids, depth, seen).0, seen, ego_list(es, exp, kids, depth, seen).1),
    decreases count_false(seen), kids.len(),
{
    if kids.len() > 0 {
        let node = kids[0].0;
        if !(0 <= node < seen.len()) || seen[node] {
            lemma_ego_list_fresh(es, exp, kids.drop_first(), depth, seen);
        } else {
            lemma_count_false_set(seen, node);
            let seen1 = seen.update(node, true);
            let sub = if expanded_has(exp, node) {
                ego_list(es, exp, ego_kids(es, node), depth + 1, seen1)
            } else {
                (seq![], seen1)
            };
            if expanded_has(exp, node) {
                lemma_ego_list_fresh(es, exp, ego_kids(es, node), depth + 1, seen1);
            }
            assert(covers(seen1, sub.1));
            lemma_count_false_covers(seen1, sub.1);
            let rest = ego_list(es, exp, kids.drop_first(), depth, sub.1);
            lemma_ego_list_fresh(es, exp, kids.drop_first(), depth, sub.1);
            let line: EntryView = (node, depth, Some(kids[0].1));
            let out = seq![line] + sub.0 + rest.0;
            assert(ego_list(es, exp, kids, depth, seen) == (out, rest.1));
            assert(covers(seen, rest.1)) by {
                assert forall|x: int| 0 <= x < seen.len() && seen[x] implies #[trigger] rest.1[x] by {
                    assert(seen1[x]);
                    assert(sub.1[x]);
                }
            }
            let a = sub.0.len();
            assert forall|i: int| 0 <= i < out.len() implies 0 <= #[trigger] out[i].0 < seen.len() && !seen[out[i].0] && rest.1[out[i].0] by {
                if i == 0 {
                    assert(out[i] == line);
                    assert(sub.1[node]);
                } else if i <= a {
                    assert(out[i] == sub.0[i - 1]);
                    assert(!seen1[sub.0[i - 1].0]);
                } else {
                    assert(out[i] == rest.0[i - 1 - a]);
                    let y = rest.0[i - 1 - a].0;
                    assert(!sub.1[y]);
                    if seen[y] {
                        assert(seen1[y]);
                    }
                }
            }
            assert forall|i: int, j: int| 0 <= i < j < out.len() implies #[trigger] out[i].0 != #[trigger] out[j].0 by {
                if i == 0 {
                    assert(out[i] == line);
                    if j <= a {
                        assert(out[j] == sub.0[j - 1]);
                    } else {
                        assert(out[j] == rest.0[j - 1 - a]);
                        assert(sub.1[node]);
                    }
                } else if i <= a {
                    assert(out[i] == sub.0[i - 1]);
                    if j <= a {
                        assert(out[j] == sub.0[j - 1]);
                    } else {
                        assert(out[j] == rest.0[j - 1 - a]);
                        assert(sub.1[sub.0[i - 1].0]);
                    }
                } else {
                    assert(out[i] == rest.0[i - 1 - a]);
                    assert(out[j] == rest.0[j - 1 - a]);
                }
            }
        }
    }
}

/// Two unfolded sets that agree on every note but `f`.
pub open spec fn agree_except(e1: Seq<petgraph::graph::NodeIndex>, e2: Seq<petgraph::graph::NodeIndex>, f: int) -> bool {
    forall|y: int| y != f ==> (expanded_has(e1, y) <==> expanded_has(e2, y))
}

/// The outline does not change with the folding of a note it does not show.
proof fn lemma_ego_list_same(
    es: Seq<(int, int, EdgeKind)>,
    e1: Seq<petgraph::graph::NodeIndex>,
    e2: Seq<petgraph::graph::NodeIndex>,
    kids: Seq<(int, RefKind)>,
    depth: int,
    seen: Seq<bool>,
    f: int,
)
    requires
        agree_except(e1, e2, f),
        forall|j: int| 0 <= j < ego_list(es, e1, kids, depth, seen).0.len() ==> (#[trigger] ego_list(es, e1, kids, depth, seen).0[j]).0 != f,
    ensures
        ego_list(es, e2, kids, depth, seen) == ego_list(es, e1, kids, depth, seen),
    decreases count_false(seen), kids.len(),
{
    if kids.len() > 0 {
        let node = kids[0].0;
        if !(0 <= node < seen.len()) || seen[node] {
            assert(ego_list(es, e1, kids, depth, seen) == ego_list(es, e1, kids.drop_first(), depth, seen));
            lemma_ego_list_same(es, e1, e2, kids.drop_first(), depth, seen, f);
        } else {
            lemma_count_false_set(seen, node);
            let seen1 = seen.update(node, true);
            let x = expanded_has(e1, node);
            let sub1 = if x { ego_list(es, e1, ego_kids(es, node), depth + 1, seen1) } else { (seq![], seen1) };
            if x {
                lemma_ego_list_fresh(es, e1, ego_kids(es, node), depth + 1, seen1);
            }
            lemma_count_false_covers(seen1, sub1.1);
            let rest1 = ego_list(es, e1, kids.drop_first(), depth, sub1.1);
            let line: EntryView = (node, depth, Some(kids[0].1));
            let out1 = seq![line] + sub1.0 + rest1.0;
            assert(ego_list(es, e1, kids, depth, seen) == (out1, rest1.1));
            let a = sub1.0.len();
            assert(ego_list(es, e1, kids, depth, seen).0[0] == line);
            assert(node != f);
            assert(expanded_has(e2, node) == x);
            if x {
                assert forall|j: int| 0 <= j < sub1.0.len() implies (#[trigger] sub1.0[j]).0 != f by {
                    assert(out1[j + 1] == sub1.0[j]);
                }
                lemma_ego_list_same(es, e1, e2, ego_kids(es, node), depth + 1, seen1, f);
            }
            assert forall|j: int| 0 <= j < rest1.0.len() implies (#[trigger] rest1.0[j]).0 != f by {
                assert(out1[j + 1 + a] == rest1.0[j]);
            }
            lemma_ego_list_same(es, e1, e2, kids.drop_first(), depth, sub1.1, f);
        }
    }
}

/// Folding a note changes the outline only after the first line that shows
/// it: the lines up to that one stay.
proof fn lemma_ego_list_prefix(
    es: Seq<(int, int, EdgeKind)>,
    e1: Seq<petgraph::graph::NodeIndex>,
    e2: Seq<petgraph::graph::NodeIndex>,
    kids: Seq<(int, RefKind)>,
    depth: int,
    seen: Seq<bool>,
    f: int,
    i: int,
)
    requires
        agree_except(e1, e2, f),
        0 <= i < ego_list(es, e1, kids, depth, seen).0.len(),
        forall|j: int| 0 <= j < i ==> (#[trigger] ego_list(es, e1, kids, depth, seen).0[j]).0 != f,
    ensures
        i < ego_list(es, e2, kids, depth, seen).0.len(),
        ego_list(es, e2, kids, depth, seen).0.take(i + 1) == ego_list(es, e1, kids, depth, seen).0.take(i + 1),
    decreases count_false(seen), kids.len(),
{
    let node = kids[0].0;
    if !(0 <= node < seen.len()) || seen[node] {
        assert(ego_list(es, e1, kids, depth, seen) == ego_list(es, e1, kids.drop_first(), depth, seen));
        assert(ego_list(es, e2, kids, depth, seen) == ego_list(es, e2, kids.drop_first(), depth, seen));
        lemma_ego_list_prefix(es, e1, e2, kids.drop_first(), depth, seen, f, i);
    } else {
        lemma_count_false_set(seen, node);
        let seen1 = seen.update(node, true);
        let x1 = expanded_has(e1, node);
        let x2 = expanded_has(e2, node);
        let sub1 = if x1 { ego_list(es, e1, ego_kids(es, node), depth + 1, seen1) } else { (seq![], seen1) };
        let sub2 = if x2 { ego_list(es, e2, ego_kids(es, node), depth + 1, seen1) } else { (seq![], seen1) };
        if x1 {
            lemma_ego_list_fresh(es, e1, ego_kids(es, node), depth + 1, seen1);
        }
        if x2 {
            lemma_ego_list_fresh(es, e2, ego_kids(es, node), depth + 1, seen1);
        }
        lemma_count_false_covers(seen1, sub1.1);
        lemma_count_false_covers(seen1, sub2.1);
        let rest1 = ego_list(es, e1, kids.drop_first(), depth, sub1.1);
        let rest2 = ego_list(es, e2, kids.drop_first(), depth, sub2.1);
        let line: EntryView = (node, depth, Some(kids[0].1));
        let out1 = seq![line] + sub1.0 + rest1.0;
        let out2 = seq![line] + sub2.0 + rest2.0;
        assert(ego_list(es, e1, kids, depth, seen) == (out1, rest1.1));
        assert(ego_list(es, e2, kids, depth, seen) == (out2, rest2.1));
        if i == 0 {
            assert(out2.take(1) =~= out1.take(1));
        } else {
            assert(ego_list(es, e1, kids, depth, seen).0[0] == line);
            assert(node != f);
            assert(x1 == x2);
            let a = sub1.0.len();
            if i - 1 < a {
                assert forall|j: int| 0 <= j < i - 1 implies (#[trigger] sub1.0[j]).0 != f by {
                    assert(out1[j + 1] == sub1.0[j]);
                }
                lemma_ego_list_prefix(es, e1, e2, ego_kids(es, node), depth + 1, seen1, f, i - 1);
                assert(out2.take(i + 1) =~= seq![line] + sub2.0.take(i));
                assert(out1.take(i + 1) =~= seq![line] + sub1.0.take(i));
            } else {
                if x1 {
                    assert forall|j: int| 0 <= j < sub1.0.len() implies (#[trigger] sub1.0[j]).0 != f by {
                        assert(out1[j + 1] == sub1.0[j]);
                    }
                    lemma_ego_list_same(es, e1, e2, ego_kids(es, node), depth + 1, seen1, f);
                }
                assert(sub2 == sub1);
                assert forall|j: int| 0 <= j < i - 1 - a implies (#[trigger] rest1.0[j]).0 != f by {
                    assert(out1[j + 1 + a] == rest1.0[j]);
                }
                lemma_ego_list_prefix(es, e1, e2, kids.drop_first(), depth, sub1.1, f, i - 1 - a);
                assert(out2.take(i + 1) =~= seq![line] + sub1.0 + rest2.0.take(i - a));
                assert(out1.take(i + 1) =~= seq![line] + sub1.0 + rest1.0.take(i - a));
            }
        }
    }
}

/// The ego outline shows only notes of the index, each at most once.
pub proof fn lemma_outline_shows_each_note_once(app: App)
    requires
        app.wf(),
    ensures
        forall|i: int| 0 <= i < app.ego_visible_spec().len() ==> 0 <= #[trigger] app.ego_visible_spec()[i].0 < app.n(),
        forall|i: int, j: int| 0 <= i < j < app.ego_visible_spec().len() ==> #[trigger] app.ego_visible_spec()[i].0 != #[trigger] app.ego_visible_spec()[j].0,
{
    let v = app.ego_visible_spec();
    match app.active {
        None => {},
        Some(root) => {
            let r = crate::store::node_index_value(root);
            let es = app.index.edges();
            let seen = Seq::new(app.n() as nat, |k: int| k == r);
            let l = ego_list(es, app.expanded@, ego_kids(es, r), 1, seen);
            lemma_ego_list_fresh(es, app.expanded@, ego_kids(es, r), 1, seen);
            let tail: Seq<EntryView> = if expanded_has(app.expanded@, r) { l.0 } else { seq![] };
            assert(v == seq![(r, 0int, None::<RefKind>)] + tail);
            assert forall|i: int| 0 <= i < v.len() implies 0 <= #[trigger] v[i].0 < app.n() by {
                if i > 0 {
                    assert(v[i] == tail[i - 1]);
                }
            }
            assert forall|i: int, j: int| 0 <= i < j < v.len() implies #[trigger] v[i].0 != #[trigger] v[j].0 by {
                assert(v[j] == tail[j - 1]);
                if i == 0 {
                    assert(!seen[tail[j - 1].0]);
                } else {
                    assert(v[i] == tail[i - 1]);
                }
            }
        },
    }
}

/// An outline whose lines start at depth `d`, never go above it, and go
/// down at most one level from one line to the next.
pub open spec fn depth_steps(v: Seq<EntryView>, d: int) -> bool {
    &&& v.len() > 0 ==> v[0].1 == d
    &&& forall|i: int| 0 <= i < v.len() ==> d <= #[trigger] v[i].1
    &&& forall|i: int| 1 <= i < v.len() ==> #[trigger] v[i].1 <= v[i - 1].1 + 1
}

proof fn lemma_ego_list_depths(
    es: Seq<(int, int, EdgeKind)>,
    exp: Seq<petgraph::graph::NodeIndex>,
    kids: Seq<(int, RefKind)>,
    depth: int,
    seen: Seq<bool>,
)
    ensures
        depth_steps(ego_list(es, exp, kids, depth, seen).0, depth),
    decreases count_false(seen), kids.len(),
{
    if kids.len() > 0 {
        let node = kids[0].0;
        if !(0 <= node < seen.len()) || seen[node] {
            lemma_ego_list_depths(es, exp, kids.drop_first(), depth, seen);
        } else {
            lemma_count_false_set(seen, node);
            let seen1 = seen.update(node, true);
            let sub = if expanded_has(exp, node) {
                ego_list(es, exp, ego_kids(es, node), depth + 1, seen1)
            } else {
                (seq![], seen1)
            };
            if expanded_has(exp, node) {
                lemma_ego_list_depths(es, exp, ego_kids(es, node), depth + 1, seen1);
            }
            if count_false(sub.1) <= count_false(seen1) {
                let rest = ego_list(es, exp, kids.drop_first(), depth, sub.1);
                lemma_ego_list_depths(es, exp, kids.drop_first(), depth, sub.1);
                let head: Seq<EntryView> = seq![(node, depth, Some(kids[0].1))];
                let r = head + sub.0 + rest.0;
                assert(ego_list(es, exp, kids, depth, seen).0 == r);
                assert forall|i: int| 0 <= i < r.len() implies depth <= #[trigger] r[i].1 by {
                    if 1 <= i < 1 + sub.0.len() {
                        assert(r[i] == sub.0[i - 1]);
                    } else if i >= 1 + sub.0.len() {
                        assert(r[i] == rest.0[i - 1 - sub.0.len()]);
                    }
                }
                assert forall|i: int| 1 <= i < r.len() implies #[trigger] r[i].1 <= r[i - 1].1 + 1 by {
                    if i < 1 + sub.0.len() {
                        assert(r[i] == sub.0[i - 1]);
                        if i >= 2 {
                            assert(r[i - 1] == sub.0[i - 2]);
                        }
                    } else {
                        let k = i - 1 - sub.0.len();
                        assert(r[i] == rest.0[k]);
                        if k >= 1 {
                            assert(r[i - 1] == rest.0[k - 1]);
                        } else if sub.0.len() > 0 {
                            assert(r[i - 1] == sub.0[sub.0.len() - 1]);
                        }
                    }
                }
            }
        }
    }
}

/// The ego outline starts with the active note at depth 0; every other line
/// is at depth 1 or more, and from one line to the next the depth grows by at
/// most one level (a line's children follow it one level deeper).
pub proof fn lemma_outline_depths(app: App)
    ensures
        app.active is Some ==> app.ego_visible_spec().len() > 0 && app.ego_visible_spec()[0].1 == 0,
        forall|i: int| 1 <= i < app.ego_visible_spec().len() ==> 1 <= #[trigger] app.ego_visible_spec()[i].1
            <= app.ego_visible_spec()[i - 1].1 + 1,
{
    let v = app.ego_visible_spec();
    match app.active {
        None => {},
        Some(root) => {
            let r = crate::store::node_index_value(root);
            let es = app.index.edges();
            let seen = Seq::new(app.n() as nat, |k: int| k == r);
            let l = ego_list(es, app.expanded@, ego_kids(es, r), 1, seen);
            lemma_ego_list_depths(es, app.expanded@, ego_kids(es, r), 1, seen);
            let tail: Seq<EntryView> = if expanded_has(app.expanded@, r) { l.0 } else { seq![] };
            assert(v == seq![(r, 0int, None::<RefKind>)] + tail);
            assert forall|i: int| 1 <= i < v.len() implies 1 <= #[trigger] v[i].1 <= v[i - 1].1 + 1 by {
                assert(v[i] == tail[i - 1]);
                if i >= 2 {
                    assert(v[i - 1] == tail[i - 2]);
                }
            }
        },
    }
}

proof fn lemma_incoming_has(es: Seq<(int, int, EdgeKind)>, p: int, i: int)
    requires
        0 <= i < es.len(),
        es[i].1 == p,
    ensures
        exists|m: int| 0 <= m < incoming(es, p).len() && #[trigger] incoming(es, p)[m] == (es[i].0, es[i].2),
    decreases es.len(),
{
    let rest = es.drop_last();
    let o = incoming(es, p);
    if i == es.len() - 1 {
        assert(o[0] == (es[i].0, es[i].2));
    } else {
        assert(rest[i] == es[i]);
        lemma_incoming_has(rest, p, i);
        let ro = incoming(rest, p);
        let m = choose|m: int| 0 <= m < ro.len() && #[trigger] ro[m] == (es[i].0, es[i].2);
        if es.last().1 == p {
            assert(o[m + 1] == ro[m]);
        } else {
            assert(o[m] == ro[m]);
        }
    }
}

proof fn lemma_outgoing_has(es: Seq<(int, int, EdgeKind)>, p: int, i: int)
    requires
        0 <= i < es.len(),
        es[i].0 == p,
    ensures
        exists|m: int| 0 <= m < outgoing(es, p).len() && #[trigger] outgoing(es, p)[m] == (es[i].1, es[i].2),
    decreases es.len(),
{
    let rest = es.drop_last();
    let o = outgoing(es, p);
    if i == es.len() - 1 {
        assert(o[0] == (es[i].1, es[i].2));
    } else {
        assert(rest[i] == es[i]);
        lemma_outgoing_has(rest, p, i);
        let ro = outgoing(rest, p);
        let m = choose|m: int| 0 <= m < ro.len() && #[trigger] ro[m] == (es[i].1, es[i].2);
        if es.last().0 == p {
            assert(o[m + 1] == ro[m]);
        } else {
            assert(o[m] == ro[m]);
        }
    }
}

proof fn lemma_reference_entries_has(l: Seq<(int, EdgeKind)>, m: int)
    requires
        0 <= m < l.len(),
        l[m].1 != EdgeKind::Contains,
    ensures
        exists|k: int| 0 <= k < reference_entries(l).len() && #[trigger] reference_entries(l)[k] == (l[m].1, l[m].0),
    decreases l.len(),
{
    let rest = l.drop_last();
    let r = reference_entries(l);
    let rr = reference_entries(rest);
    if m == l.len() - 1 {
        assert(r[rr.len() as int] == (l[m].1, l[m].0));
    } else {
        assert(rest[m] == l[m]);
        lemma_reference_entries_has(rest, m);
        let k = choose|k: int| 0 <= k < rr.len() && #[trigger] rr[k] == (l[m].1, l[m].0);
        assert(r[k] == rr[k]);
    }
}

/// The outline children of a note hold each note it refers to and each note
/// that refers to it: for every edge that is no containment, an edge `p -> q`
/// lists `q` as a reference (`Structure` for a transclusion, else
/// `Conceptual`), and an edge `q -> p` lists `q` as a backlink
/// (`StructuralBacklink` for a transclusion, else `Backlink`).
pub proof fn lemma_outline_children_hold_every_reference(es: Seq<(int, int, EdgeKind)>, p: int, i: int)
    requires
        0 <= i < es.len(),
        es[i].2 != EdgeKind::Contains,
    ensures
        es[i].0 == p ==> exists|m: int| 0 <= m < ego_kids(es, p).len() && #[trigger] ego_kids(es, p)[m]
            == (es[i].1, if es[i].2 == EdgeKind::Transcludes { RefKind::Structure } else { RefKind::Conceptual }),
        es[i].1 == p ==> exists|m: int| 0 <= m < ego_kids(es, p).len() && #[trigger] ego_kids(es, p)[m]
            == (es[i].0, if es[i].2 == EdgeKind::Transcludes { RefKind::StructuralBacklink } else { RefKind::Backlink }),
{
    let fwd = reference_entries(outgoing(es, p));
    let back = reference_entries(incoming(es, p));
    let fm = fwd.map_values(|r: (EdgeKind, int)| (r.1, forward_kind(r.0)));
    let bm = back.map_values(|r: (EdgeKind, int)| (r.1, backward_kind(r.0)));
    assert(ego_kids(es, p) == fm + bm);
    if es[i].0 == p {
        lemma_outgoing_has(es, p, i);
        let o = outgoing(es, p);
        let m = choose|m: int| 0 <= m < o.len() && #[trigger] o[m] == (es[i].1, es[i].2);
        lemma_reference_entries_has(o, m);
        let k = choose|k: int| 0 <= k < fwd.len() && #[trigger] fwd[k] == (o[m].1, o[m].0);
        assert((fm + bm)[k] == fm[k]);
    }
    if es[i].1 == p {
        lemma_incoming_has(es, p, i);
        let o = incoming(es, p);
        let m = choose|m: int| 0 <= m < o.len() && #[trigger] o[m] == (es[i].0, es[i].2);
        lemma_reference_entries_has(o, m);
        let k = choose|k: int| 0 <= k < back.len() && #[trigger] back[k] == (o[m].1, o[m].0);
        assert((fm + bm)[fm.len() + k] == bm[k]);
    }
}

/// The outline under a list of children marks every child, and marks nothing
/// new that it does not show.
proof fn lemma_ego_list_marks(
    es: Seq<(int, int, EdgeKind)>,
    exp: Seq<petgraph::graph::NodeIndex>,
    kids: Seq<(int, RefKind)>,
    depth: int,
    seen: Seq<bool>,
)
    ensures
        forall|m: int| 0 <= m < kids.len() && 0 <= #[trigger] kids[m].0 < seen.len()
            ==> ego_list(es, exp, kids, depth, seen).1[kids[m].0],
        forall|x: int| 0 <= x < seen.len() && #[trigger] ego_list(es, exp, kids, depth, seen).1[x] && !seen[x]
            ==> exists|i: int| 0 <= i < ego_list(es, exp, kids, depth, seen).0.len()
                && #[trigger] ego_list(es, exp, kids, depth, seen).0[i].0 == x,
    decreases count_false(seen), kids.len(),
{
    lemma_ego_list_fresh(es, exp, kids, depth, seen);
    if kids.len() > 0 {
        let node = kids[0].0;
        let after = ego_list(es, exp, kids, depth, seen).1;
        if !(0 <= node < seen.len()) || seen[node] {
            lemma_ego_list_marks(es, exp, kids.drop_first(), depth, seen);
            assert(ego_list(es, exp, kids, depth, seen) == ego_list(es, exp, kids.drop_first(), depth, seen));
            assert forall|m: int| 0 <= m < kids.len() && 0 <= #[trigger] kids[m].0 < seen.len() implies after[kids[m].0] by {
                if m > 0 {
                    assert(kids.drop_first()[m - 1] == kids[m]);
                }
            }
        } else {
            lemma_count_false_set(seen, node);
            let seen1 = seen.update(node, true);
            let sub = if expanded_has(exp, node) {
                ego_list(es, exp, ego_kids(es, node), depth + 1, seen1)
            } else {
                (seq![], seen1)
            };
            if expanded_has(exp, node) {
                lemma_ego_list_fresh(es, exp, ego_kids(es, node), depth + 1, seen1);
                lemma_ego_list_marks(es, exp, ego_kids(es, node), depth + 1, seen1);
            }
            assert(covers(seen1, sub.1));
            lemma_count_false_covers(seen1, sub.1);
            let rest = ego_list(es, exp, kids.drop_first(), depth, sub.1);
            lemma_ego_list_fresh(es, exp, kids.drop_first(), depth, sub.1);
            lemma_ego_list_marks(es, exp, kids.drop_first(), depth, sub.1);
            let line: EntryView = (node, depth, Some(kids[0].1));
            let out = seq![line] + sub.0 + rest.0;
            assert(ego_list(es, exp, kids, depth, seen) == (out, rest.1));
            assert forall|m: int| 0 <= m < kids.len() && 0 <= #[trigger] kids[m].0 < seen.len() implies rest.1[kids[m].0] by {
                if m > 0 {
                    assert(kids.drop_first()[m - 1] == kids[m]);
                } else {
                    assert(sub.1[node]);
                }
            }
            let a = sub.0.len();
            assert forall|x: int| 0 <= x < seen.len() && #[trigger] rest.1[x] && !seen[x]
                implies exists|i: int| 0 <= i < out.len() && #[trigger] out[i].0 == x by {
                if x == node {
                    assert(out[0].0 == x);
                } else if sub.1[x] {
                    assert(!seen1[x]);
                    assert(expanded_has(exp, node));
                    let i = choose|i: int| 0 <= i < sub.0.len() && #[trigger] sub.0[i].0 == x;
                    assert(out[1 + i] == sub.0[i]);
                } else {
                    let i = choose|i: int| 0 <= i < rest.0.len() && #[trigger] rest.0[i].0 == x;
                    assert(out[1 + a + i] == rest.0[i]);
                }
            }
        }
    }
}

/// With the active note unfolded, the ego outline shows every note that it
/// refers to and every note that refers to it, by any edge that is no
/// containment.
pub proof fn lemma_outline_shows_references_and_backlinks(app: App, i: int)
    requires
        app.wf(),
        app.active is Some,
        expanded_has(app.expanded@, crate::store::node_index_value(app.active->0)),
        0 <= i < app.index.edges().len(),
        app.index.edges()[i].2 != EdgeKind::Contains,
        app.index.edges()[i].0 == crate::store::node_index_value(app.active->0)
            || app.index.edges()[i].1 == crate::store::node_index_value(app.active->0),
    ensures
        exists|j: int| 0 <= j < app.ego_visible_spec().len() && #[trigger] app.ego_visible_spec()[j].0
            == (if app.index.edges()[i].0 == crate::store::node_index_value(app.active->0) {
                app.index.edges()[i].1
            } else {
                app.index.edges()[i].0
            }),
{
    let r = crate::store::node_index_value(app.active->0);
    let es = app.index.edges();
    let e = es[i];
    let q = if e.0 == r { e.1 } else { e.0 };
    let v = app.ego_visible_spec();
    let seen = Seq::new(app.n() as nat, |k: int| k == r);
    let kids = ego_kids(es, r);
    let l = ego_list(es, app.expanded@, kids, 1, seen);
    assert(v == seq![(r, 0int, None::<RefKind>)] + l.0);
    assert(0 <= q < app.n());
    if q == r {
        assert(v[0].0 == q);
    } else {
        lemma_outline_children_hold_every_reference(es, r, i);
        let m = choose|m: int| 0 <= m < kids.len() && #[trigger] kids[m].0 == q;
        if e.0 == r {
            let m2 = choose|m: int| 0 <= m < kids.len() && #[trigger] kids[m]
                == (e.1, if e.2 == EdgeKind::Transcludes { RefKind::Structure } else { RefKind::Conceptual });
            assert(kids[m2].0 == q);
        } else {
            let m2 = choose|m: int| 0 <= m < kids.len() && #[trigger] kids[m]
                == (e.0, if e.2 == EdgeKind::Transcludes { RefKind::StructuralBacklink } else { RefKind::Backlink });
            assert(kids[m2].0 == q);
        }
        lemma_ego_list_marks(es, app.expanded@, kids, 1, seen);
        assert(l.1[q]);
        assert(!seen[q]);
        let j = choose|j: int| 0 <= j < l.0.len() && #[trigger] l.0[j].0 == q;
        assert(v[j + 1] == l.0[j]);
    }
}

/// Unfolding the focused line of the ego outline and then folding it again
/// gives back the unfolded notes and the focus from before.
pub proof fn lemma_unfold_then_fold(a: App, b: App, c: App)
    requires
        a.wf(),
        a.mode == ViewMode::Ego,
        a.ego_focus < a.ego_visible_spec().len(),
        !expanded_has(a.expanded@, a.ego_visible_spec()[a.ego_focus as int].0),
        descended(a, b),
        ascended(b, c),
    ensures
        forall|y: int| expanded_has(c.expanded@, y) <==> expanded_has(a.expanded@, y),
        c.ego_focus == a.ego_focus,
        c.mode == a.mode,
        c.active == a.active,
        c.columns == a.columns,
        c.index == a.index,
        c.running == a.running,
{
    let v = a.ego_visible_spec();
    let i = a.ego_focus as int;
    let f = v[i].0;
    assert(clamp_focus(i, v.len() as int) == i);
    assert(a.focused_spec() == Some(f));
    assert(agree_except(a.expanded@, b.expanded@, f));
    let w = b.ego_visible_spec();
    assert(i < w.len() && w[i].0 == f) by {
        let root = a.active.unwrap();
        let r = crate::store::node_index_value(root);
        let es = a.index.edges();
        let seen = Seq::new(a.n() as nat, |k: int| k == r);
        if i == 0 {
            assert(v[0] == (r, 0int, None::<RefKind>));
            assert(w[0] == (r, 0int, None::<RefKind>));
        } else {
            let l1 = ego_list(es, a.expanded@, ego_kids(es, r), 1, seen);
            let l2 = ego_list(es, b.expanded@, ego_kids(es, r), 1, seen);
            assert(expanded_has(a.expanded@, r));
            assert(expanded_has(b.expanded@, r));
            assert(v == seq![(r, 0int, None::<RefKind>)] + l1.0);
            assert(w == seq![(r, 0int, None::<RefKind>)] + l2.0);
            lemma_outline_shows_each_note_once(a);
            assert forall|j: int| 0 <= j < i - 1 implies (#[trigger] l1.0[j]).0 != f by {
                assert(v[j + 1] == l1.0[j]);
            }
            lemma_ego_list_prefix(es, a.expanded@, b.expanded@, ego_kids(es, r), 1, seen, f, i - 1);
            assert(l2.0.take(i)[i - 1] == l1.0.take(i)[i - 1]);
            assert(w[i] == l2.0[i - 1]);
            assert(v[i] == l1.0[i - 1]);
        }
    }
    assert(clamp_focus(b.ego_focus as int, w.len() as int) == i);
    assert(expanded_has(b.expanded@, f));
    assert forall|y: int| expanded_has(c.expanded@, y) <==> expanded_has(a.expanded@, y) by {
        assert(expanded_has(c.expanded@, y) <==> folded(b.expanded@, f, y));
    }
}

} // verus!
