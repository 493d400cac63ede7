use zttl::graph::GraphIndex;
use zttl::model::{Frontmatter, Note, NoteType};
use zttl::store::EdgeKind;

fn note(
    slug: &str,
    title: &str,
    parents: Option<Vec<&str>>,
    links: Vec<&str>,
    ty: NoteType,
) -> Note {
    Note {
        slug: slug.to_string(),
        path: Default::default(),
        frontmatter: Frontmatter {
            id: None,
            title: Some(title.to_string()),
            note_type: ty,
            status: Default::default(),
            parents: parents.map(|v| v.into_iter().map(str::to_string).collect()),
            ..Default::default()
        },
        body: String::new(),
        links: links.into_iter().map(str::to_string).collect(),
        transclusions: Vec::new(),
        blocks: Vec::new(),
    }
}

#[test]
fn explicit_parents_become_containment() {
    let idx = GraphIndex::build(vec![
        note("ds", "Data Structures", Some(vec![]), vec!["Algorithms"], NoteType::Area),
        note("algo", "Algorithms", Some(vec!["ds"]), vec![], NoteType::Area),
    ]);
    let ds = idx.resolve("ds").unwrap();
    let algo = idx.resolve("algo").unwrap();
    assert!(idx.graph.contains_edge(ds, algo));
    let e = idx.graph.find_edge(ds, algo).unwrap();
    assert_eq!(*idx.graph.edge_weight(e).unwrap(), EdgeKind::Contains);
    assert_eq!(idx.descendants(ds), vec![algo]);
}

#[test]
fn membership_derived_when_parents_absent() {
    let idx = GraphIndex::build(vec![
        note("area", "Area", Some(vec![]), vec!["child"], NoteType::Area),
        note("child", "Child", None, vec![], NoteType::Note),
    ]);
    let area = idx.resolve("area").unwrap();
    let child = idx.resolve("child").unwrap();
    assert!(idx.graph.contains_edge(area, child));
    let e = idx.graph.find_edge(area, child).unwrap();
    assert_eq!(*idx.graph.edge_weight(e).unwrap(), EdgeKind::Contains);
}

#[test]
fn explicit_empty_parents_blocks_membership() {
    let idx = GraphIndex::build(vec![
        note("area", "Area", Some(vec![]), vec!["child"], NoteType::Area),
        note("child", "Child", Some(vec![]), vec![], NoteType::Note),
    ]);
    let area = idx.resolve("area").unwrap();
    let child = idx.resolve("child").unwrap();
    let e = idx.graph.find_edge(area, child).unwrap();
    assert_eq!(*idx.graph.edge_weight(e).unwrap(), EdgeKind::Links);
}

#[test]
fn resolution_prefers_id_then_title_then_slug() {
    let mut notes = vec![note("slug-name", "Title Name", None, vec![], NoteType::Note)];
    notes[0].frontmatter.id = Some("ulid-123".to_string());
    let idx = GraphIndex::build(notes);
    assert_eq!(idx.resolve("ulid-123"), idx.resolve("Title Name"));
    assert_eq!(idx.resolve("Title Name"), idx.resolve("slug-name"));
}

#[test]
fn unresolved_links_recorded() {
    let idx = GraphIndex::build(vec![note(
        "a",
        "A",
        None,
        vec!["Missing Target"],
        NoteType::Note,
    )]);
    assert_eq!(idx.unresolved_links, vec![("a".to_string(), "Missing Target".to_string())]);
}

#[test]
fn fuzzy_case_insensitive() {
    let idx = GraphIndex::build(vec![
        note("algorithms", "Algorithms", None, vec![], NoteType::Note)
    ]);
    assert!(idx.resolve_fuzzy("algorithms").is_some());
    assert!(idx.resolve_fuzzy("ALGORITHMS").is_some());
}

#[test]
fn fuzzy_normalized() {
    let idx = GraphIndex::build(vec![
        note("distributed-systems", "Distributed Systems", None, vec![], NoteType::Note)
    ]);
    assert!(idx.resolve_fuzzy("distributed systems").is_some());
    assert!(idx.resolve_fuzzy("DistributedSystems").is_some());
}

#[test]
fn fuzzy_prefix() {
    let idx = GraphIndex::build(vec![
        note("algorithms", "Algorithms", None, vec![], NoteType::Note)
    ]);
    assert!(idx.resolve_fuzzy("algo").is_some());
}

#[test]
fn fuzzy_substring() {
    let idx = GraphIndex::build(vec![
        note("algorithms", "Algorithms", None, vec![], NoteType::Note)
    ]);
    assert!(idx.resolve_fuzzy("rithm").is_some());
}

#[test]
fn fuzzy_tiebreaker_prefers_shorter() {
    let idx = GraphIndex::build(vec![
        note("algorithms", "Algorithms", None, vec![], NoteType::Note),
        note("algo", "Algo", None, vec![], NoteType::Note)
    ]);
    let r = idx.resolve_fuzzy("algo");
    assert!(r.is_some());
    assert_eq!(idx.graph[r.unwrap()].slug, "algo");
}

#[test]
fn ulid_returns_26_chars() {
    let id = GraphIndex::generate_ulid();
    assert_eq!(id.to_string().len(), 26);
}

#[test]
fn linked_note_without_id_gets_a_ulid() {
    let idx = GraphIndex::build(vec![
        note("a", "A", None, vec!["B"], NoteType::Note),
        note("b", "B", None, vec![], NoteType::Note),
        note("c", "C", None, vec![], NoteType::Note),
    ]);
    let b = idx.resolve("b").unwrap();
    let id = idx.note(b).frontmatter.id.clone().expect("a linked note gets an id");
    assert_eq!(id.len(), 26);
    assert!(id.chars().all(|c| c.is_ascii_digit() || c.is_ascii_uppercase()));
    assert_eq!(idx.resolve(&id), Some(b));
    assert_eq!(idx.note(idx.resolve("a").unwrap()).frontmatter.id, None);
    assert_eq!(idx.note(idx.resolve("c").unwrap()).frontmatter.id, None);
}

#[test]
fn parent_target_gets_an_id_and_existing_ids_stay() {
    let mut p = note("p", "P", None, vec![], NoteType::Area);
    p.frontmatter.id = Some("keep-me".to_string());
    let idx = GraphIndex::build(vec![
        p,
        note("q", "Q", None, vec![], NoteType::Note),
        note("k", "K", Some(vec!["p", "q"]), vec![], NoteType::Note),
    ]);
    assert_eq!(idx.note(idx.resolve("p").unwrap()).frontmatter.id.as_deref(), Some("keep-me"));
    let q = idx.note(idx.resolve("q").unwrap()).frontmatter.id.clone().unwrap();
    assert_eq!(q.len(), 26);
    assert_eq!(idx.note(idx.resolve("k").unwrap()).frontmatter.id, None);
}

#[test]
fn unresolved_links_assign_no_id() {
    let idx = GraphIndex::build(vec![note("a", "A", None, vec!["Nowhere"], NoteType::Note)]);
    assert_eq!(idx.note(idx.resolve("a").unwrap()).frontmatter.id, None);
    assert_eq!(idx.unresolved_links.len(), 1);
}

fn dated(slug: &str, title: &str, parents: Option<Vec<&str>>, links: Vec<&str>, updated: &str) -> Note {
    let mut n = note(slug, title, parents, links, NoteType::Note);
    n.frontmatter.updated = Some(updated.to_string());
    n
}

#[test]
fn links_to_duplicate_titles_prefer_the_containment_context() {
    let idx = GraphIndex::build(vec![
        note("p", "P", None, vec![], NoteType::Area),
        note("q", "Q", None, vec![], NoteType::Area),
        dated("d1", "Dup", Some(vec!["p"]), vec![], "2020-01-01"),
        dated("d2", "Dup", Some(vec!["q"]), vec![], "2026-01-01"),
        dated("s", "S", Some(vec!["p"]), vec!["Dup"], "2024-01-01"),
        dated("t", "T", None, vec!["Dup"], "2024-01-01"),
    ]);
    let d1 = idx.resolve("d1").unwrap();
    let d2 = idx.resolve("d2").unwrap();
    let s = idx.resolve("s").unwrap();
    let t = idx.resolve("t").unwrap();
    assert_eq!(idx.resolve("Dup"), Some(d2));
    assert!(idx.graph.contains_edge(s, d1));
    assert!(!idx.graph.contains_edge(s, d2));
    assert!(idx.graph.contains_edge(t, d2));
    assert!(!idx.graph.contains_edge(t, d1));
    assert_eq!(idx.note(d1).frontmatter.id.as_ref().map(|i| i.len()), Some(26));
    assert_eq!(idx.note(d2).frontmatter.id.as_ref().map(|i| i.len()), Some(26));
}

#[test]
fn a_child_in_context_wins_over_a_newer_stranger() {
    let idx = GraphIndex::build(vec![
        dated("home", "Home", None, vec!["Notes"], "2021-01-01"),
        dated("mine", "Notes", Some(vec!["home"]), vec![], "2021-01-01"),
        dated("other", "Notes", None, vec![], "2025-05-05"),
    ]);
    let home = idx.resolve("home").unwrap();
    let mine = idx.resolve("mine").unwrap();
    let other = idx.resolve("other").unwrap();
    assert!(idx.graph.contains_edge(home, mine));
    assert!(!idx.graph.contains_edge(home, other));
    assert_eq!(idx.note(other).frontmatter.id, None);
}
