//! Navigation state: the two views over the same notes and how keys move
//! through them. Ego mode shows the surroundings of the active note as a
//! foldable outline; spatial mode shows the containment hierarchy as columns.
use vstd::prelude::*;
use petgraph::graph::NodeIndex;
use crate::graph::{GraphIndex, count_false, edges_valid, lemma_count_false_set, reference_entries, ref_values, contains_targets, roots_upto, index_values, fuzzy_best};
use crate::store::{EdgeKind, node_index_value, index_of, outgoing, incoming};

verus! {

/// The most columns that spatial mode shows side by side.
pub const MAX_COLUMNS: usize = 3;

/// Which view is shown.
#[derive(Debug, Clone, Copy, PartialEq, Eq, Structural)]
pub enum ViewMode {
    Ego,
    Spatial,
}

/// How an entry of the ego outline relates to the entry above it.
#[derive(Debug, Clone, Copy, PartialEq, Eq, Structural)]
pub enum RefKind {
    Conceptual,
    Structure,
    Backlink,
    StructuralBacklink,
}

/// The key under which a rendered heading image is cached.
#[derive(Debug, Clone, Hash, PartialEq, Eq)]
pub struct HeaderKey {
    pub slug: String,
    pub text: String,
    pub level: u8,
    pub width: u16,
}

/// A column of spatial mode and the position focused in it.
pub struct Column {
    pub items: Vec<NodeIndex>,
    pub focus: usize,
}

/// A line of the ego outline.
pub struct EgoEntry {
    pub node: NodeIndex,
    pub depth: usize,
    pub category: Option<RefKind>,
}

/// An outline line as values: `(node, depth, category)`.
pub type EntryView = (int, int, Option<RefKind>);

pub open spec fn entry_view(e: EgoEntry) -> EntryView {
    (node_index_value(e.node), e.depth as int, e.category)
}

pub open spec fn entry_views(v: Seq<EgoEntry>) -> Seq<EntryView> {
    v.map_values(|e: EgoEntry| entry_view(e))
}

/// Whether node `x` is unfolded.
pub open spec fn expanded_has(exp: Seq<NodeIndex>, x: int) -> bool {
    exists|i: int| 0 <= i < exp.len() && node_index_value(#[trigger] exp[i]) == x
}

/// The category of a reference that leaves a note.
pub open spec fn forward_kind(k: EdgeKind) -> RefKind {
    if k == EdgeKind::Transcludes {
        RefKind::Structure
    } else {
        RefKind::Conceptual
    }
}

/// The category of a reference that enters a note.
pub open spec fn backward_kind(k: EdgeKind) -> RefKind {
    if k == EdgeKind::Transcludes {
        RefKind::StructuralBacklink
    } else {
        RefKind::Backlink
    }
}

/// The outline children of `p`: what it refers to, then what refers to it.
pub open spec fn ego_kids(es: Seq<(int, int, EdgeKind)>, p: int) -> Seq<(int, RefKind)> {
    reference_entries(outgoing(es, p)).map_values(|r: (EdgeKind, int)| (r.1, forward_kind(r.0)))
        + reference_entries(incoming(es, p)).map_values(|r: (EdgeKind, int)| (r.1, backward_kind(r.0)))
}

/// The outline lines under a list of children at `depth`, depth first, each
/// note shown once: a child already shown (in `seen`) is skipped; an unfolded
/// child is followed by its own children one level deeper. Also the `seen`
/// set afterwards.
pub open spec fn ego_list(
    es: Seq<(int, int, EdgeKind)>,
    exp: Seq<NodeIndex>,
    kids: Seq<(int, RefKind)>,
    depth: int,
    seen: Seq<bool>,
) -> (Seq<EntryView>, Seq<bool>)
    decreases count_false(seen), kids.len(),
{
    if kids.len() == 0 {
        (seq![], seen)
    } else {
        let node = kids[0].0;
        if !(0 <= node < seen.len()) || seen[node] {
            ego_list(es, exp, kids.drop_first(), depth, seen)
        } else {
            proof {
                lemma_count_false_set(seen, node);
            }
            let seen1 = seen.update(node, true);
            let sub = if expanded_has(exp, node) {
                ego_list(es, exp, ego_kids(es, node), depth + 1, seen1)
            } else {
                (seq![], seen1)
            };
            if count_false(sub.1) <= count_false(seen1) {
                let rest = ego_list(es, exp, kids.drop_first(), depth, sub.1);
                (seq![(node, depth, Some(kids[0].1))] + sub.0 + rest.0, rest.1)
            } else {
                (seq![], sub.1)
            }
        }
    }
}

proof fn lemma_outgoing_valid(es: Seq<(int, int, EdgeKind)>, p: int, n: int)
    requires
        edges_valid(es, n),
    ensures
        forall|m: int| 0 <= m < outgoing(es, p).len() ==> 0 <= #[trigger] outgoing(es, p)[m].0 < n,
    decreases es.len(),
{
    if es.len() > 0 {
        let rest = es.drop_last();
        assert(edges_valid(rest, n)) by {
            assert forall|i: int| 0 <= i < rest.len() implies 0 <= #[trigger] rest[i].0 < n && 0 <= rest[i].1 < n by {
                assert(rest[i] == es[i]);
            }
        }
        lemma_outgoing_valid(rest, p, n);
        let e = es.last();
        assert(0 <= es[es.len() - 1].0 < n && 0 <= es[es.len() - 1].1 < n);
        let o = outgoing(es, p);
        let ro = outgoing(rest, p);
        assert forall|m: int| 0 <= m < o.len() implies 0 <= #[trigger] o[m].0 < n by {
            if e.0 == p {
                if m > 0 {
                    assert(o[m] == ro[m - 1]);
                }
            } else {
                assert(o[m] == ro[m]);
            }
        }
    }
}

proof fn lemma_incoming_valid(es: Seq<(int, int, EdgeKind)>, p: int, n: int)
    requires
        edges_valid(es, n),
    ensures
        forall|m: int| 0 <= m < incoming(es, p).len() ==> 0 <= #[trigger] incoming(es, p)[m].0 < n,
    decreases es.len(),
{
    if es.len() > 0 {
        let rest = es.drop_last();
        assert(edges_valid(rest, n)) by {
            assert forall|i: int| 0 <= i < rest.len() implies 0 <= #[trigger] rest[i].0 < n && 0 <= rest[i].1 < n by {
                assert(rest[i] == es[i]);
            }
        }
        lemma_incoming_valid(rest, p, n);
        let e = es.last();
        assert(0 <= es[es.len() - 1].0 < n && 0 <= es[es.len() - 1].1 < n);
        let o = incoming(es, p);
        let ro = incoming(rest, p);
        assert forall|m: int| 0 <= m < o.len() implies 0 <= #[trigger] o[m].0 < n by {
            if e.1 == p {
                if m > 0 {
                    assert(o[m] == ro[m - 1]);
                }
            } else {
                assert(o[m] == ro[m]);
            }
        }
    }
}

proof fn lemma_refs_valid(l: Seq<(int, EdgeKind)>, n: int)
    requires
        forall|m: int| 0 <= m < l.len() ==> 0 <= #[trigger] l[m].0 < n,
    ensures
        forall|m: int| 0 <= m < reference_entries(l).len() ==> 0 <= #[trigger] reference_entries(l)[m].1 < n,
    decreases l.len(),
{
    if l.len() > 0 {
        let rest = l.drop_last();
        assert forall|m: int| 0 <= m < rest.len() implies 0 <= #[trigger] rest[m].0 < n by {
            assert(rest[m] == l[m]);
        }
        lemma_refs_valid(rest, n);
        assert(0 <= l[l.len() - 1].0 < n);
        let r = reference_entries(l);
        let rr = reference_entries(rest);
        assert forall|m: int| 0 <= m < r.len() implies 0 <= #[trigger] r[m].1 < n by {
            if m < rr.len() {
                assert(r[m] == rr[m]);
            }
        }
    }
}

/// The navigation state.
pub struct App {
    pub index: GraphIndex,
    pub mode: ViewMode,
    pub active: Option<NodeIndex>,
    pub columns: Vec<Column>,
    pub expanded: Vec<NodeIndex>,
    pub ego_focus: usize,
    pub running: bool,
}

/// A node index that stands for one of `n` notes.
pub open spec fn valid_node(x: NodeIndex, n: int) -> bool {
    0 <= node_index_value(x) < n
}

impl App {
    /// The number of notes.
    pub open spec fn n(&self) -> int {
        self.index.notes().len() as int
    }

    /// Every node index held names a note, and no node is unfolded twice.
    pub open spec fn wf(&self) -> bool {
        &&& self.index.wf()
        &&& (self.active matches Some(a) ==> valid_node(a, self.n()))
        &&& forall|c: int, i: int| 0 <= c < self.columns@.len() && 0 <= i < self.columns@[c].items@.len() ==> valid_node(#[trigger] self.columns@[c].items@[i], self.n())
        &&& forall|i: int| 0 <= i < self.expanded@.len() ==> valid_node(#[trigger] self.expanded@[i], self.n())
        &&& forall|i: int, j: int| 0 <= i < j < self.expanded@.len() ==> node_index_value(#[trigger] self.expanded@[i]) != node_index_value(#[trigger] self.expanded@[j])
    }

    /// The ego outline as values.
    pub open spec fn ego_visible_spec(&self) -> Seq<EntryView> {
        match self.active {
            None => seq![],
            Some(root) => {
                let r = node_index_value(root);
                let seen = Seq::new(self.n() as nat, |i: int| i == r);
                seq![(r, 0, None)] + if expanded_has(self.expanded@, r) {
                    ego_list(self.index.edges(), self.expanded@, ego_kids(self.index.edges(), r), 1, seen).0
                } else {
                    seq![]
                }
            },
        }
    }

    /// Whether `x` is unfolded.
    pub fn is_expanded(&self, x: NodeIndex) -> (r: bool)
        ensures
            r == expanded_has(self.expanded@, node_index_value(x)),
    {
        let v = index_of(x);
        let mut i: usize = 0;
        while i < self.expanded.len()
            invariant
                i <= self.expanded@.len(),
                v == node_index_value(x),
                forall|k: int| 0 <= k < i ==> node_index_value(#[trigger] self.expanded@[k]) != v,
            decreases self.expanded.len() - i,
        {
            if index_of(self.expanded[i]) == v {
                return true;
            }
            i += 1;
        }
        false
    }

    /// The outline children of `p`, as `ego_kids` lists them.
    fn kids(&self, p: NodeIndex) -> (r: Vec<(NodeIndex, RefKind)>)
        requires
            self.wf(),
            valid_node(p, self.n()),
        ensures
            r@.map_values(|k: (NodeIndex, RefKind)| (node_index_value(k.0), k.1)) == ego_kids(self.index.edges(), node_index_value(p)),
            forall|i: int| 0 <= i < r@.len() ==> valid_node(#[trigger] r@[i].0, self.n()),
    {
        let ghost es = self.index.edges();
        let ghost pv = node_index_value(p);
        proof {
            lemma_outgoing_valid(es, pv, self.n());
            lemma_incoming_valid(es, pv, self.n());
            lemma_refs_valid(outgoing(es, pv), self.n());
            lemma_refs_valid(incoming(es, pv), self.n());
        }
        let fwd = self.index.forward_refs(p);
        let back = self.index.backlinks_of(p);
        let ghost f = reference_entries(outgoing(es, pv));
        let ghost b = reference_entries(incoming(es, pv));
        let ghost fm = f.map_values(|r: (EdgeKind, int)| (r.1, forward_kind(r.0)));
        let ghost bm = b.map_values(|r: (EdgeKind, int)| (r.1, backward_kind(r.0)));
        let mut r: Vec<(NodeIndex, RefKind)> = Vec::new();
        let mut i: usize = 0;
        while i < fwd.len()
            invariant
                ref_values(fwd@) == f,
                fm == f.map_values(|r: (EdgeKind, int)| (r.1, forward_kind(r.0))),
                i <= fwd@.len(),
                forall|m: int| 0 <= m < f.len() ==> 0 <= #[trigger] f[m].1 < self.n(),
                r@.map_values(|k: (NodeIndex, RefKind)| (node_index_value(k.0), k.1)) == fm.take(i as int),
                forall|m: int| 0 <= m < r@.len() ==> valid_node(#[trigger] r@[m].0, self.n()),
            decreases fwd.len() - i,
        {
            let (kind, t) = fwd[i];
            assert(f[i as int] == (kind, node_index_value(t)));
            let cat = if kind == EdgeKind::Transcludes {
                RefKind::Structure
            } else {
                RefKind::Conceptual
            };
            r.push((t, cat));
            assert(fm.take(i + 1) =~= fm.take(i as int).push(fm[i as int]));
            i += 1;
            assert(r@.map_values(|k: (NodeIndex, RefKind)| (node_index_value(k.0), k.1)) =~= fm.take(i as int));
        }
        let mut j: usize = 0;
        while j < back.len()
            invariant
                ref_values(back@) == b,
                fm == f.map_values(|r: (EdgeKind, int)| (r.1, forward_kind(r.0))),
                bm == b.map_values(|r: (EdgeKind, int)| (r.1, backward_kind(r.0))),
                j <= back@.len(),
                forall|m: int| 0 <= m < b.len() ==> 0 <= #[trigger] b[m].1 < self.n(),
                r@.map_values(|k: (NodeIndex, RefKind)| (node_index_value(k.0), k.1)) == fm + bm.take(j as int),
                forall|m: int| 0 <= m < r@.len() ==> valid_node(#[trigger] r@[m].0, self.n()),
            decreases back.len() - j,
        {
            let (kind, t) = back[j];
            assert(b[j as int] == (kind, node_index_value(t)));
            let cat = if kind == EdgeKind::Transcludes {
                RefKind::StructuralBacklink
            } else {
                RefKind::Backlink
            };
            let ghost before = r@;
            r.push((t, cat));
            assert(bm.take(j + 1) =~= bm.take(j as int).push(bm[j as int]));
            assert(bm[j as int] == (node_index_value(t), cat));
            assert(r@.map_values(|k: (NodeIndex, RefKind)| (node_index_value(k.0), k.1)) =~= before.map_values(|k: (NodeIndex, RefKind)| (node_index_value(k.0), k.1)).push((node_index_value(t), cat)));
            assert(fm + bm.take(j + 1) =~= (fm + bm.take(j as int)).push(bm[j as int]));
            j += 1;
            assert(r@.map_values(|k: (NodeIndex, RefKind)| (node_index_value(k.0), k.1)) =~= fm + bm.take(j as int));
        }
        assert(fm.take(fwd@.len() as int) =~= fm);
        assert(bm.take(back@.len() as int) =~= bm);
        r
    }
}


proof fn lemma_count_false_all(s: Seq<bool>)
    requires
        forall|i: int| 0 <= i < s.len() ==> !s[i],
    ensures
        count_false(s) == s.len(),
    decreases s.len(),
{
    if s.len() > 0 {
        lemma_count_false_all(s.drop_last());
    }
}

impl App {
    /// Appends the outline lines under `parent` at `depth` to `out`, skipping
    /// and marking notes in `seen`.
    fn collect_ego_children(&self, parent: NodeIndex, depth: usize, seen: &mut Vec<bool>, out: &mut Vec<EgoEntry>)
        requires
            self.wf(),
            valid_node(parent, self.n()),
            old(seen)@.len() == self.n(),
            depth + count_false(old(seen)@) <= self.n() + 1,
        ensures
            ({
                let r = ego_list(self.index.edges(), self.expanded@, ego_kids(self.index.edges(), node_index_value(parent)), depth as int, old(seen)@);
                &&& entry_views(final(out)@) == entry_views(old(out)@) + r.0
                &&& final(seen)@ == r.1
            }),
            count_false(final(seen)@) <= count_false(old(seen)@),
            final(seen)@.len() == old(seen)@.len(),
            forall|i: int| 0 <= i < old(out)@.len() ==> #[trigger] final(out)@[i] == old(out)@[i],
            forall|i: int| old(out)@.len() <= i < final(out)@.len() ==> valid_node(#[trigger] final(out)@[i].node, self.n()),
        decreases count_false(seen@),
    {
        let ghost es = self.index.edges();
        let ghost exp = self.expanded@;
        let ghost n = self.n();
        let kids = self.kids(parent);
        let ghost kk = kids@.map_values(|k: (NodeIndex, RefKind)| (node_index_value(k.0), k.1));
        let ghost s0 = seen@;
        let ghost out0 = out@;
        let ghost o0 = entry_views(out@);
        let ghost mut done: Seq<EntryView> = seq![];
        assert(kk.skip(0) =~= kk);
        let mut j: usize = 0;
        while j < kids.len()
            invariant
                self.wf(),
                es == self.index.edges(),
                exp == self.expanded@,
                n == self.n(),
                kk == kids@.map_values(|k: (NodeIndex, RefKind)| (node_index_value(k.0), k.1)),
                kk == ego_kids(es, node_index_value(parent)),
                forall|i: int| 0 <= i < kids@.len() ==> valid_node(#[trigger] kids@[i].0, n),
                j <= kids@.len(),
                seen@.len() == n,
                depth + count_false(s0) <= n + 1,
                s0 == old(seen)@,
                count_false(seen@) <= count_false(s0),
                entry_views(out@) == o0 + done,
                ego_list(es, exp, kk, depth as int, s0) == (done + ego_list(es, exp, kk.skip(j as int), depth as int, seen@).0, ego_list(es, exp, kk.skip(j as int), depth as int, seen@).1),
                forall|i: int| 0 <= i < out0.len() ==> #[trigger] out@[i] == out0[i],
                forall|i: int| out0.len() <= i < out@.len() ==> valid_node(#[trigger] out@[i].node, n),
                out0.len() <= out@.len(),
            decreases kids.len() - j,
        {
            let (node, cat) = kids[j];
            let v = index_of(node);
            let ghost rest = kk.skip(j as int);
            assert(rest[0] == (v as int, cat));
            assert(rest.drop_first() =~= kk.skip(j + 1));
            if seen[v] {
                assert(ego_list(es, exp, rest, depth as int, seen@) == ego_list(es, exp, kk.skip(j + 1), depth as int, seen@));
            } else {
                let ghost sj = seen@;
                proof {
                    lemma_count_false_set(sj, v as int);
                }
                seen.set(v, true);
                assert(seen@ == sj.update(v as int, true));
                let ghost before = out@;
                out.push(EgoEntry { node, depth, category: Some(cat) });
                assert(entry_views(out@) =~= entry_views(before).push((v as int, depth as int, Some(cat))));
                let ghost seen1 = seen@;
                let ghost mid = entry_views(out@);
                assert(count_false(seen@) < count_false(s0));
                if self.is_expanded(node) {
                    self.collect_ego_children(node, depth + 1, seen, out);
                }
                proof {
                    let sub = if expanded_has(exp, v as int) {
                        ego_list(es, exp, ego_kids(es, v as int), depth + 1, seen1)
                    } else {
                        (seq![], seen1)
                    };
                    assert(entry_views(out@) =~= mid + sub.0);
                    assert(seen@ == sub.1);
                    assert(count_false(sub.1) <= count_false(seen1));
                    done = done + seq![(v as int, depth as int, Some(cat))] + sub.0;
                    assert(entry_views(out@) =~= o0 + done);
                    let r2 = ego_list(es, exp, kk.skip(j + 1), depth as int, seen@);
                    assert(ego_list(es, exp, rest, depth as int, sj) == (seq![(v as int, depth as int, Some(cat))] + sub.0 + r2.0, r2.1));
                }
            }
            j += 1;
        }
        proof {
            assert(kk.skip(kids@.len() as int) =~= Seq::<(int, RefKind)>::empty());
            assert(done + Seq::<EntryView>::empty() =~= done);
        }
    }

    /// The ego outline: the active note, then, while unfolded, what it refers
    /// to and what refers to it, recursively, each note once.
    pub fn ego_visible(&self) -> (r: Vec<EgoEntry>)
        requires
            self.wf(),
        ensures
            entry_views(r@) == self.ego_visible_spec(),
            forall|i: int| 0 <= i < r@.len() ==> valid_node(#[trigger] r@[i].node, self.n()),
    {
        match self.active {
            None => {
                let v: Vec<EgoEntry> = Vec::new();
                assert(entry_views(v@) =~= Seq::<EntryView>::empty());
                v
            },
            Some(root) => {
                let n = crate::store::node_count(&self.index.graph);
                let r = index_of(root);
                let mut seen: Vec<bool> = Vec::new();
                let mut k: usize = 0;
                while k < n
                    invariant
                        k <= n,
                        seen@.len() == k,
                        forall|x: int| 0 <= x < k ==> !seen@[x],
                    decreases n - k,
                {
                    seen.push(false);
                    k += 1;
                }
                proof {
                    lemma_count_false_all(seen@);
                    lemma_count_false_set(seen@, r as int);
                }
                seen.set(r, true);
                let ghost init = Seq::new(self.n() as nat, |i: int| i == r as int);
                assert(seen@ =~= init);
                let mut visible: Vec<EgoEntry> = Vec::new();
                visible.push(EgoEntry { node: root, depth: 0, category: None });
                assert(entry_views(visible@) =~= seq![(r as int, 0int, None::<RefKind>)]);
                if self.is_expanded(root) {
                    self.collect_ego_children(root, 1, &mut seen, &mut visible);
                }
                visible
            },
        }
    }
}

/// `f.min(len - 1)`: a focus position kept inside a list of `len` entries.
pub open spec fn clamp_focus(f: int, len: int) -> int {
    if f < len - 1 {
        f
    } else {
        len - 1
    }
}

/// `x.clamp(lo, hi)`.
pub open spec fn clamp(x: int, lo: int, hi: int) -> int {
    if x < lo {
        lo
    } else if x > hi {
        hi
    } else {
        x
    }
}

/// The position of the last outline line before `j` at `depth`.
pub open spec fn last_at_depth(v: Seq<EntryView>, j: int, depth: int) -> Option<int>
    decreases j,
{
    if j <= 0 {
        None
    } else if v[j - 1].1 == depth {
        Some(j - 1)
    } else {
        last_at_depth(v, j - 1, depth)
    }
}

/// The unfolded set after `x` is folded.
pub open spec fn folded(exp: Seq<NodeIndex>, x: int, y: int) -> bool {
    expanded_has(exp, y) && y != x
}

/// What `toggle_mode` does: how the state `b` after it relates to the state `a` before.
pub open spec fn toggled(a: App, b: App) -> bool {
    &&& (b.mode == (if a.mode == ViewMode::Ego {
            ViewMode::Spatial
        } else {
            ViewMode::Ego
        }))
    &&& (b.index == a.index)
    &&& (b.active == a.active)
    &&& (b.columns == a.columns)
    &&& (b.expanded == a.expanded)
    &&& (b.ego_focus == a.ego_focus)
    &&& (b.running == a.running)
}

/// What `quit` does: how the state `b` after it relates to the state `a` before.
pub open spec fn quitted(a: App, b: App) -> bool {
    &&& (!b.running)
    &&& (b.index == a.index)
    &&& (b.mode == a.mode)
    &&& (b.active == a.active)
    &&& (b.columns == a.columns)
    &&& (b.expanded == a.expanded)
    &&& (b.ego_focus == a.ego_focus)
}

/// What `open_focused` does: how the state `b` after it relates to the state `a` before.
pub open spec fn opened_focused(a: App, b: App) -> bool {
    &&& (b.wf())
    &&& (match a.focused_spec() {
            Some(f) => b.active matches Some(a) && node_index_value(a) == f && b.expanded@.len() == 0 && b.ego_focus == 0,
            None => b.active == a.active && b.expanded == a.expanded && b.ego_focus == a.ego_focus,
        })
    &&& (b.index == a.index)
    &&& (b.mode == a.mode)
    &&& (b.columns == a.columns)
    &&& (b.running == a.running)
}

/// What `move_focus` does: how the state `b` after it relates to the state `a` before.
pub open spec fn moved(a: App, b: App, delta: isize) -> bool {
    &&& (b.wf())
    &&& (b.index == a.index)
    &&& (b.mode == a.mode)
    &&& (b.active == a.active)
    &&& (b.expanded == a.expanded)
    &&& (b.running == a.running)
    &&& (a.mode == ViewMode::Ego ==> {
            let len = a.ego_visible_spec().len() as int;
            &&& b.columns == a.columns
            &&& b.ego_focus == (if len == 0 {
                0
            } else {
                clamp((a.ego_focus as isize) + delta, 0, ((len - 1) as isize) as int)
            })
        })
    &&& (a.mode == ViewMode::Spatial ==> {
            &&& b.ego_focus == a.ego_focus
            &&& if a.columns@.len() == 0 {
                b.columns@ == a.columns@
            } else {
                let k = a.columns@.len() - 1;
                let c = a.columns@[k];
                let len = c.items@.len() as int;
                &&& b.columns@.len() == a.columns@.len()
                &&& forall|i: int| 0 <= i < k ==> #[trigger] b.columns@[i] == a.columns@[i]
                &&& b.columns@[k].items == c.items
                &&& b.columns@[k].focus == (if len == 0 {
                    0
                } else {
                    clamp((c.focus as isize) + delta, 0, ((len - 1) as isize) as int)
                })
            }
        })
}

/// What `descend` does: how the state `b` after it relates to the state `a` before.
pub open spec fn descended(a: App, b: App) -> bool {
    &&& (b.wf())
    &&& (b.index == a.index)
    &&& (b.mode == a.mode)
    &&& (b.active == a.active)
    &&& (b.ego_focus == a.ego_focus)
    &&& (b.running == a.running)
    &&& (match a.focused_spec() {
            None => b.columns == a.columns && b.expanded == a.expanded,
            Some(f) => match a.mode {
                ViewMode::Ego => b.columns == a.columns && forall|y: int| expanded_has(b.expanded@, y) <==> (expanded_has(a.expanded@, y) || y == f),
                ViewMode::Spatial => {
                    let ch = contains_targets(outgoing(a.index.edges(), f));
                    &&& b.expanded == a.expanded
                    &&& if ch.len() == 0 {
                        b.columns@ == a.columns@
                    } else {
                        &&& b.columns@.len() == a.columns@.len() + 1
                        &&& forall|i: int| 0 <= i < a.columns@.len() ==> #[trigger] b.columns@[i] == a.columns@[i]
                        &&& index_values(b.columns@.last().items@) == ch
                        &&& b.columns@.last().focus == 0
                    }
                },
            },
        })
}

/// What `ascend` does: how the state `b` after it relates to the state `a` before.
pub open spec fn ascended(a: App, b: App) -> bool {
    &&& (b.wf())
    &&& (b.index == a.index)
    &&& (b.mode == a.mode)
    &&& (b.active == a.active)
    &&& (b.running == a.running)
    &&& (a.mode == ViewMode::Spatial ==> {
            &&& b.expanded == a.expanded
            &&& b.ego_focus == a.ego_focus
            &&& b.columns@ == if a.columns@.len() > 1 {
                a.columns@.drop_last()
            } else {
                a.columns@
            }
        })
    &&& (a.mode == ViewMode::Ego ==> {
            let v = a.ego_visible_spec();
            let fc = clamp_focus(a.ego_focus as int, v.len() as int);
            &&& b.columns == a.columns
            &&& if v.len() == 0 {
                b.expanded == a.expanded && b.ego_focus == a.ego_focus
            } else if expanded_has(a.expanded@, v[fc].0) {
                &&& forall|y: int| expanded_has(b.expanded@, y) <==> folded(a.expanded@, v[fc].0, y)
                &&& b.ego_focus == fc
            } else if v[fc].1 > 0 {
                match last_at_depth(v, fc, v[fc].1 - 1) {
                    Some(idx) => {
                        &&& forall|y: int| expanded_has(b.expanded@, y) <==> folded(a.expanded@, v[idx].0, y)
                        &&& b.ego_focus == idx
                    },
                    None => b.expanded == a.expanded && b.ego_focus == a.ego_focus,
                }
            } else {
                b.expanded == a.expanded && b.ego_focus == a.ego_focus
            }
        })
}

/// `move_focus(delta)` may run on `a`: the focus arithmetic stays inside `isize`.
pub open spec fn can_move(a: App, delta: isize) -> bool {
    &&& (a.wf())
    &&& (a.mode == ViewMode::Ego && a.ego_visible_spec().len() > 0 ==> {
            &&& isize::MIN <= (a.ego_focus as isize) + delta <= isize::MAX
            &&& ((a.ego_visible_spec().len() - 1) as isize) >= 0
        })
    &&& (a.mode == ViewMode::Spatial && a.columns@.len() > 0 && a.columns@.last().items@.len() > 0 ==> {
            &&& isize::MIN <= (a.columns@.last().focus as isize) + delta <= isize::MAX
            &&& ((a.columns@.last().items@.len() - 1) as isize) >= 0
        })
}

impl App {
    /// What `focused_node` gives: the focused line of the outline in ego mode,
    /// the focused item of the last column in spatial mode.
    pub open spec fn focused_spec(&self) -> Option<int> {
        match self.mode {
            ViewMode::Ego => {
                let v = self.ego_visible_spec();
                if v.len() == 0 {
                    None
                } else {
                    Some(v[clamp_focus(self.ego_focus as int, v.len() as int)].0)
                }
            },
            ViewMode::Spatial => {
                if self.columns@.len() == 0 {
                    None
                } else {
                    let c = self.columns@.last();
                    if c.items@.len() == 0 {
                        None
                    } else {
                        Some(node_index_value(c.items@[clamp_focus(c.focus as int, c.items@.len() as int)]))
                    }
                }
            },
        }
    }

    /// The state that browsing `index` starts in: ego mode on the first root,
    /// one column of roots in spatial mode, nothing unfolded.
    pub fn new(index: GraphIndex) -> (r: App)
        requires
            index.wf(),
        ensures
            r.wf(),
            r.index == index,
            r.mode == ViewMode::Ego,
            r.columns@.len() == 1,
            index_values(r.columns@[0].items@) == roots_upto(index.edges(), index.notes().len() as int),
            r.columns@[0].focus == 0,
            r.active == (if r.columns@[0].items@.len() == 0 {
                None::<NodeIndex>
            } else {
                Some(r.columns@[0].items@[0])
            }),
            r.expanded@.len() == 0,
            r.ego_focus == 0,
            r.running,
    {
        let roots = index.roots();
        proof {
            crate::graph::lemma_roots_valid(index.edges(), index.notes().len() as int);
        }
        let active = if roots.len() > 0 {
            Some(roots[0])
        } else {
            None
        };
        let mut columns: Vec<Column> = Vec::new();
        columns.push(Column { items: roots, focus: 0 });
        let app = App {
            index,
            mode: ViewMode::Ego,
            active,
            columns,
            expanded: Vec::new(),
            ego_focus: 0,
            running: true,
        };
        proof {
            assert forall|c: int, i: int| 0 <= c < app.columns@.len() && 0 <= i < app.columns@[c].items@.len() implies valid_node(#[trigger] app.columns@[c].items@[i], app.n()) by {
                assert(c == 0);
                assert(index_values(app.columns@[0].items@)[i] == node_index_value(app.columns@[0].items@[i]));
            }
            if app.columns@[0].items@.len() > 0 {
                assert(index_values(app.columns@[0].items@)[0] == node_index_value(app.columns@[0].items@[0]));
            }
        }
        app
    }

    /// The focused note, if any.
    pub fn focused_node(&self) -> (r: Option<NodeIndex>)
        requires
            self.wf(),
        ensures
            match r {
                Some(x) => self.focused_spec() == Some(node_index_value(x)) && valid_node(x, self.n()),
                None => self.focused_spec() is None,
            },
    {
        match self.mode {
            ViewMode::Ego => {
                let visible = self.ego_visible();
                if visible.len() == 0 {
                    None
                } else {
                    let focus = if self.ego_focus < visible.len() - 1 {
                        self.ego_focus
                    } else {
                        visible.len() - 1
                    };
                    assert(entry_views(visible@)[focus as int] == entry_view(visible@[focus as int]));
                    Some(visible[focus].node)
                }
            },
            ViewMode::Spatial => {
                if self.columns.len() == 0 {
                    return None;
                }
                let last = &self.columns[self.columns.len() - 1];
                if last.items.len() == 0 {
                    None
                } else {
                    let focus = if last.focus < last.items.len() - 1 {
                        last.focus
                    } else {
                        last.items.len() - 1
                    };
                    Some(last.items[focus])
                }
            },
        }
    }

    /// Switches between ego and spatial mode.
    pub fn toggle_mode(&mut self)
        ensures
            toggled(*old(self), *final(self)),
    {
        match self.mode {
            ViewMode::Ego => self.mode = ViewMode::Spatial,
            ViewMode::Spatial => self.mode = ViewMode::Ego,
        }
    }

    /// Stops the application.
    pub fn quit(&mut self)
        ensures
            quitted(*old(self), *final(self)),
    {
        self.running = false;
    }

    /// Makes `n` the active note: folds everything and focuses its line.
    pub fn open(&mut self, n: NodeIndex)
        requires
            old(self).wf(),
            valid_node(n, old(self).n()),
        ensures
            final(self).wf(),
            final(self).active == Some(n),
            final(self).expanded@.len() == 0,
            final(self).ego_focus == 0,
            final(self).index == old(self).index,
            final(self).mode == old(self).mode,
            final(self).columns == old(self).columns,
            final(self).running == old(self).running,
    {
        self.expanded.clear();
        self.active = Some(n);
        self.ego_focus = 0;
    }

    /// Opens the focused note.
    pub fn open_focused(&mut self)
        requires
            old(self).wf(),
        ensures
            opened_focused(*old(self), *final(self)),
    {
        if let Some(n) = self.focused_node() {
            self.open(n);
        }
    }

    /// Opens the note that `query` names, exactly or fuzzily, if any.
    pub fn jump(&mut self, query: &str)
        requires
            old(self).wf(),
        ensures
            final(self).wf(),
            match old(self).index.fuzzy_spec(query@) {
                Some(t) => final(self).active matches Some(a) && node_index_value(a) == t && final(self).expanded@.len() == 0 && final(self).ego_focus == 0,
                None => final(self).active == old(self).active && final(self).expanded == old(self).expanded && final(self).ego_focus == old(self).ego_focus,
            },
            final(self).index == old(self).index,
            final(self).mode == old(self).mode,
            final(self).columns == old(self).columns,
            final(self).running == old(self).running,
    {
        if let Some(target) = self.index.resolve_fuzzy(query) {
            proof {
                self.index.lemma_fuzzy_in_range(query@);
            }
            self.open(target);
        }
    }
}

impl App {
    /// Where node value `v` stands in the unfolded list.
    fn position_expanded(&self, v: usize) -> (r: Option<usize>)
        ensures
            match r {
                Some(i) => i < self.expanded@.len() && node_index_value(self.expanded@[i as int]) == v,
                None => !expanded_has(self.expanded@, v as int),
            },
    {
        let mut i: usize = 0;
        while i < self.expanded.len()
            invariant
                i <= self.expanded@.len(),
                forall|k: int| 0 <= k < i ==> node_index_value(#[trigger] self.expanded@[k]) != v,
            decreases self.expanded.len() - i,
        {
            if index_of(self.expanded[i]) == v {
                return Some(i);
            }
            i += 1;
        }
        None
    }

    /// Folds `x`: removes it from the unfolded set.
    fn fold(&mut self, x: NodeIndex)
        requires
            old(self).wf(),
        ensures
            final(self).wf(),
            forall|y: int| expanded_has(final(self).expanded@, y) <==> folded(old(self).expanded@, node_index_value(x), y),
            final(self).index == old(self).index,
            final(self).mode == old(self).mode,
            final(self).active == old(self).active,
            final(self).columns == old(self).columns,
            final(self).ego_focus == old(self).ego_focus,
            final(self).running == old(self).running,
    {
        let v = index_of(x);
        let pos = self.position_expanded(v);
        if let Some(i) = pos {
            {
                let ghost e0 = self.expanded@;
                self.expanded.remove(i);
                assert(self.expanded@ == e0.remove(i as int));
                assert forall|y: int| expanded_has(self.expanded@, y) <==> folded(e0, v as int, y) by {
                    if expanded_has(self.expanded@, y) {
                        let k = choose|k: int| 0 <= k < self.expanded@.len() && node_index_value(#[trigger] self.expanded@[k]) == y;
                        if k < i {
                            assert(self.expanded@[k] == e0[k]);
                        } else {
                            assert(self.expanded@[k] == e0[k + 1]);
                            assert(node_index_value(e0[k + 1]) != node_index_value(e0[i as int]));
                        }
                    }
                    if folded(e0, v as int, y) {
                        let k = choose|k: int| 0 <= k < e0.len() && node_index_value(#[trigger] e0[k]) == y;
                        if k < i {
                            assert(self.expanded@[k] == e0[k]);
                        } else {
                            assert(k != i);
                            assert(self.expanded@[k - 1] == e0[k]);
                        }
                    }
                }
                assert forall|a: int, b: int| 0 <= a < b < self.expanded@.len() implies node_index_value(#[trigger] self.expanded@[a]) != node_index_value(#[trigger] self.expanded@[b]) by {
                    let a0 = if a < i { a } else { a + 1 };
                    let b0 = if b < i { b } else { b + 1 };
                    assert(self.expanded@[a] == e0[a0]);
                    assert(self.expanded@[b] == e0[b0]);
                }
                assert forall|k: int| 0 <= k < self.expanded@.len() implies valid_node(#[trigger] self.expanded@[k], self.n()) by {
                    if k < i {
                        assert(self.expanded@[k] == e0[k]);
                    } else {
                        assert(self.expanded@[k] == e0[k + 1]);
                    }
                }
            }
        }
    }

    /// Moves the focus by `delta` lines (ego mode) or items (the last column of
    /// spatial mode), staying inside the list.
    pub fn move_focus(&mut self, delta: isize)
        requires
            can_move(*old(self), delta),
        ensures
            moved(*old(self), *final(self), delta),
    {
        match self.mode {
            ViewMode::Ego => {
                let visible_len = self.ego_visible().len();
                if visible_len == 0 {
                    self.ego_focus = 0;
                    return;
                }
                let new_focus = self.ego_focus as isize + delta;
                let hi = (visible_len - 1) as isize;
                self.ego_focus = if new_focus < 0 {
                    0
                } else if new_focus > hi {
                    hi as usize
                } else {
                    new_focus as usize
                };
            },
            ViewMode::Spatial => {
                if self.columns.len() == 0 {
                    return;
                }
                let ghost old_cols = self.columns@;
                let mut col = self.columns.pop().unwrap();
                if col.items.len() == 0 {
                    col.focus = 0;
                } else {
                    let new_focus = col.focus as isize + delta;
                    let hi = (col.items.len() - 1) as isize;
                    col.focus = if new_focus < 0 {
                        0
                    } else if new_focus > hi {
                        hi as usize
                    } else {
                        new_focus as usize
                    };
                }
                self.columns.push(col);
                assert forall|c: int, i: int| 0 <= c < self.columns@.len() && 0 <= i < self.columns@[c].items@.len() implies valid_node(#[trigger] self.columns@[c].items@[i], self.n()) by {
                    if c < self.columns@.len() - 1 {
                        assert(self.columns@[c] == old_cols[c]);
                    } else {
                        assert(self.columns@[c].items == old_cols[c].items);
                    }
                }
            },
        }
    }
}

impl App {
    /// Goes one level deeper from the focused note: unfolds it in ego mode;
    /// opens a column of what it contains in spatial mode, if it contains
    /// anything.
    pub fn descend(&mut self)
        requires
            old(self).wf(),
        ensures
            descended(*old(self), *final(self)),
    {
        let focused = match self.focused_node() {
            Some(f) => f,
            None => return,
        };
        match self.mode {
            ViewMode::Ego => {
                if !self.is_expanded(focused) {
                    let ghost e0 = self.expanded@;
                    self.expanded.push(focused);
                    assert forall|y: int| expanded_has(self.expanded@, y) <==> (expanded_has(e0, y) || y == node_index_value(focused)) by {
                        if expanded_has(e0, y) {
                            let k = choose|k: int| 0 <= k < e0.len() && node_index_value(#[trigger] e0[k]) == y;
                            assert(self.expanded@[k] == e0[k]);
                        }
                        if y == node_index_value(focused) {
                            assert(self.expanded@[e0.len() as int] == focused);
                        }
                        if expanded_has(self.expanded@, y) {
                            let k = choose|k: int| 0 <= k < self.expanded@.len() && node_index_value(#[trigger] self.expanded@[k]) == y;
                            if k < e0.len() {
                                assert(self.expanded@[k] == e0[k]);
                            }
                        }
                    }
                    assert forall|a: int, b: int| 0 <= a < b < self.expanded@.len() implies node_index_value(#[trigger] self.expanded@[a]) != node_index_value(#[trigger] self.expanded@[b]) by {
                        assert(self.expanded@[a] == e0[a]);
                        if b < e0.len() {
                            assert(self.expanded@[b] == e0[b]);
                        } else {
                            assert(!expanded_has(e0, node_index_value(focused)));
                            assert(node_index_value(e0[a]) != node_index_value(focused));
                        }
                    }
                    assert forall|k: int| 0 <= k < self.expanded@.len() implies valid_node(#[trigger] self.expanded@[k], self.n()) by {
                        if k < e0.len() {
                            assert(self.expanded@[k] == e0[k]);
                        }
                    }
                }
            },
            ViewMode::Spatial => {
                let children = self.index.children_of(focused);
                if children.len() > 0 {
                    proof {
                        lemma_children_valid(self.index.edges(), node_index_value(focused), self.n());
                    }
                    let ghost c0 = self.columns@;
                    self.columns.push(Column { items: children, focus: 0 });
                    assert forall|c: int, i: int| 0 <= c < self.columns@.len() && 0 <= i < self.columns@[c].items@.len() implies valid_node(#[trigger] self.columns@[c].items@[i], self.n()) by {
                        if c < c0.len() {
                            assert(self.columns@[c] == c0[c]);
                        } else {
                            assert(index_values(self.columns@[c].items@)[i] == node_index_value(self.columns@[c].items@[i]));
                        }
                    }
                }
            },
        }
    }

    /// Goes one level up. In ego mode: folds the focused line if it is
    /// unfolded; else folds the line it hangs under and focuses it. In spatial
    /// mode: closes the last column, but never the first.
    pub fn ascend(&mut self)
        requires
            old(self).wf(),
        ensures
            ascended(*old(self), *final(self)),
    {
        match self.mode {
            ViewMode::Ego => {
                let visible = self.ego_visible();
                let ghost v = entry_views(visible@);
                if visible.len() == 0 {
                    return;
                }
                let focus_clamp = if self.ego_focus < visible.len() - 1 {
                    self.ego_focus
                } else {
                    visible.len() - 1
                };
                assert(v[focus_clamp as int] == entry_view(visible@[focus_clamp as int]));
                let current_node = visible[focus_clamp].node;
                let current_depth = visible[focus_clamp].depth;
                if self.is_expanded(current_node) {
                    self.fold(current_node);
                    self.ego_focus = focus_clamp;
                } else if current_depth > 0 {
                    let target_depth = current_depth - 1;
                    let mut j = focus_clamp;
                    while j > 0
                        invariant
                            j <= focus_clamp < visible@.len(),
                            v == entry_views(visible@),
                            last_at_depth(v, focus_clamp as int, target_depth as int) == last_at_depth(v, j as int, target_depth as int),
                        ensures
                            j == 0 || v[j - 1].1 == target_depth,
                            last_at_depth(v, focus_clamp as int, target_depth as int) == last_at_depth(v, j as int, target_depth as int),
                        decreases j,
                    {
                        assert(v[j - 1] == entry_view(visible@[j - 1]));
                        if visible[j - 1].depth == target_depth {
                            break;
                        }
                        j -= 1;
                    }
                    if j > 0 {
                        assert(v[j - 1] == entry_view(visible@[j - 1]));
                        let parent = visible[j - 1].node;
                        self.fold(parent);
                        self.ego_focus = j - 1;
                    }
                }
            },
            ViewMode::Spatial => {
                if self.columns.len() > 1 {
                    let ghost c0 = self.columns@;
                    self.columns.pop();
                    assert forall|c: int, i: int| 0 <= c < self.columns@.len() && 0 <= i < self.columns@[c].items@.len() implies valid_node(#[trigger] self.columns@[c].items@[i], self.n()) by {
                        assert(self.columns@[c] == c0[c]);
                    }
                }
            },
        }
    }
}

proof fn lemma_children_valid(es: Seq<(int, int, EdgeKind)>, p: int, n: int)
    requires
        edges_valid(es, n),
    ensures
        forall|i: int| 0 <= i < contains_targets(outgoing(es, p)).len() ==> 0 <= #[trigger] contains_targets(outgoing(es, p))[i] < n,
{
    lemma_outgoing_valid(es, p, n);
    lemma_targets_valid(outgoing(es, p), n);
}

proof fn lemma_targets_valid(l: Seq<(int, EdgeKind)>, n: int)
    requires
        forall|m: int| 0 <= m < l.len() ==> 0 <= #[trigger] l[m].0 < n,
    ensures
        forall|i: int| 0 <= i < contains_targets(l).len() ==> 0 <= #[trigger] contains_targets(l)[i] < n,
    decreases l.len(),
{
    if l.len() > 0 {
        let rest = l.drop_last();
        assert forall|m: int| 0 <= m < rest.len() implies 0 <= #[trigger] rest[m].0 < n by {
            assert(rest[m] == l[m]);
        }
        lemma_targets_valid(rest, n);
        assert(0 <= l[l.len() - 1].0 < n);
        let r = contains_targets(l);
        let rr = contains_targets(rest);
        assert forall|i: int| 0 <= i < r.len() implies 0 <= #[trigger] r[i] < n by {
            if i < rr.len() {
                assert(r[i] == rr[i]);
            }
        }
    }
}
} // verus!
