use zttl::graph::GraphIndex;
use zttl::model::{Block, Frontmatter, Note, NoteType};
use zttl::store::EdgeKind;

fn note(slug: &str, title: &str, parents: Option<Vec<&str>>, links: Vec<&str>, ty: NoteType) -> Note {
    Note {
        slug: slug.to_string(),
        path: String::new(),
        frontmatter: Frontmatter {
            title: Some(title.to_string()),
            note_type: ty,
            parents: parents.map(|v| v.into_iter().map(str::to_string).collect()),
            ..Default::default()
        },
        body: String::new(),
        links: links.into_iter().map(str::to_string).collect(),
        transclusions: Vec::new(),
        blocks: Vec::new(),
    }
}

fn edge_kinds(idx: &GraphIndex, from: &str, to: &str) -> Vec<EdgeKind> {
    let a = idx.resolve(from).unwrap();
    let b = idx.resolve(to).unwrap();
    idx.graph.edges_connecting(a, b).map(|e| *e.weight()).collect()
}

#[test]
fn containment_is_transitive() {
    let idx = GraphIndex::build(vec![
        note("a", "A", None, vec![], NoteType::Note),
        note("b", "B", Some(vec!["a"]), vec![], NoteType::Note),
        note("c", "C", Some(vec!["b"]), vec![], NoteType::Note),
    ]);
    let a = idx.resolve("a").unwrap();
    let b = idx.resolve("b").unwrap();
    let c = idx.resolve("c").unwrap();
    let mut under_a = idx.descendants(a);
    under_a.sort();
    let mut expected = vec![b, c];
    expected.sort();
    assert_eq!(under_a, expected);
    assert_eq!(idx.descendants(b), vec![c]);
    assert!(idx.descendants(c).is_empty());
}

#[test]
fn a_note_can_have_several_parents() {
    let idx = GraphIndex::build(vec![
        note("psy", "Psychology", None, vec![], NoteType::Area),
        note("prod", "Productivity", None, vec![], NoteType::Area),
        note("flow", "Flow State", Some(vec!["psy", "Productivity"]), vec![], NoteType::Note),
    ]);
    assert_eq!(edge_kinds(&idx, "psy", "flow"), vec![EdgeKind::Contains]);
    assert_eq!(edge_kinds(&idx, "prod", "flow"), vec![EdgeKind::Contains]);
}

#[test]
fn link_edges_are_not_duplicated() {
    let idx = GraphIndex::build(vec![
        note("a", "A", None, vec!["B", "b"], NoteType::Note),
        note("b", "B", None, vec![], NoteType::Note),
        note("area", "Area", None, vec!["c"], NoteType::Area),
        note("c", "C", None, vec![], NoteType::Note),
    ]);
    assert_eq!(edge_kinds(&idx, "a", "b"), vec![EdgeKind::Links]);
    // Membership already joins the area to its member: no link edge besides.
    assert_eq!(edge_kinds(&idx, "area", "c"), vec![EdgeKind::Contains]);
}

#[test]
fn unresolved_parents_are_recorded() {
    let idx = GraphIndex::build(vec![note("c", "C", Some(vec!["nobody"]), vec![], NoteType::Note)]);
    assert_eq!(idx.unresolved_parents, vec![("c".to_string(), "nobody".to_string())]);
}

#[test]
fn title_beats_slug_and_the_last_duplicate_wins() {
    let idx = GraphIndex::build(vec![
        note("foo", "Something", None, vec![], NoteType::Note),
        note("x", "Foo", None, vec![], NoteType::Note),
        note("d1", "Dup", None, vec![], NoteType::Note),
        note("d2", "Dup", None, vec![], NoteType::Note),
    ]);
    assert_eq!(idx.note(idx.resolve("Foo").unwrap()).slug, "x");
    assert_eq!(idx.note(idx.resolve("foo").unwrap()).slug, "foo");
    assert_eq!(idx.note(idx.resolve("Dup").unwrap()).slug, "d2");
    assert_eq!(idx.resolve("nothing"), None);
}

#[test]
fn transclusions_of_missing_blocks_are_reported() {
    let mut a = note("a", "A", None, vec![], NoteType::Note);
    a.transclusions = vec!["b-01".to_string(), "gone".to_string()];
    let mut b = note("b", "B", None, vec![], NoteType::Note);
    b.blocks = vec![Block { id: Some("b-01".to_string()), text: "kept".to_string() }, Block { id: None, text: "x".to_string() }];
    let idx = GraphIndex::build(vec![a, b]);
    assert_eq!(idx.unresolved_transclusions, vec![("a".to_string(), "gone".to_string())]);
    assert!(idx.block_registry.contains_key("b-01"));
    assert!(!idx.block_registry.contains_key("gone"));
    assert_eq!(idx.block_registry.len(), 1);
}

#[test]
fn exact_names_win_over_fuzzy_ones() {
    let idx = GraphIndex::build(vec![
        note("algorithms", "Algorithms", None, vec![], NoteType::Note),
        note("algo", "Algo", None, vec![], NoteType::Note),
    ]);
    assert_eq!(idx.note(idx.resolve_fuzzy("Algorithms").unwrap()).slug, "algorithms");
    assert_eq!(idx.resolve_fuzzy("zzz"), None);
}

#[test]
fn descendants_come_depth_first_latest_edge_first() {
    let idx = GraphIndex::build(vec![
        note("a", "A", None, vec![], NoteType::Note),
        note("b", "B", Some(vec!["a"]), vec![], NoteType::Note),
        note("c", "C", Some(vec!["a"]), vec![], NoteType::Note),
        note("d", "D", Some(vec!["b"]), vec![], NoteType::Note),
    ]);
    let slugs: Vec<String> = idx
        .descendants(idx.resolve("a").unwrap())
        .into_iter()
        .map(|n| idx.note(n).slug.clone())
        .collect();
    assert_eq!(slugs, vec!["c".to_string(), "b".to_string(), "d".to_string()]);
}

fn edited(slug: &str, title: &str, updated: Option<&str>) -> Note {
    let mut n = note(slug, title, None, vec![], NoteType::Note);
    n.frontmatter.updated = updated.map(str::to_string);
    n
}

#[test]
fn duplicate_titles_resolve_to_the_most_recently_edited() {
    let idx = GraphIndex::build(vec![
        edited("new", "Dup", Some("2026-08-24")),
        edited("old", "Dup", Some("2026-01-05")),
        edited("none", "Dup", None),
    ]);
    assert_eq!(idx.note(idx.resolve("Dup").unwrap()).slug, "new");
}

#[test]
fn equally_recent_duplicates_resolve_to_the_last() {
    let idx = GraphIndex::build(vec![
        edited("first", "Twin", Some("2026-03-01")),
        edited("older", "Twin", Some("2025-12-31")),
        edited("second", "Twin", Some("2026-03-01")),
    ]);
    assert_eq!(idx.note(idx.resolve("Twin").unwrap()).slug, "second");
}

#[test]
fn a_dated_note_beats_an_undated_duplicate() {
    let idx = GraphIndex::build(vec![
        edited("dated", "Same", Some("2024-02-02")),
        edited("undated", "Same", None),
    ]);
    assert_eq!(idx.note(idx.resolve("Same").unwrap()).slug, "dated");
}
