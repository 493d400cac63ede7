use zttl::app::{App, RefKind, ViewMode};
use zttl::graph::GraphIndex;
use zttl::model::{Frontmatter, Note, NoteType};
use zttl::ui::nav::{active_title, column_header, column_lines, ego_lines, hints, mode_label};
use zttl::ui::{handle_key, nav_editor_split, Constraint, Key};

fn note(slug: &str, title: &str, parents: Option<Vec<&str>>, links: Vec<&str>) -> Note {
    Note {
        slug: slug.to_string(),
        path: format!("{}.md", slug),
        frontmatter: Frontmatter {
            title: Some(title.to_string()),
            note_type: NoteType::Note,
            parents: parents.map(|v| v.into_iter().map(str::to_string).collect()),
            ..Default::default()
        },
        body: String::new(),
        links: links.into_iter().map(str::to_string).collect(),
        transclusions: Vec::new(),
        blocks: Vec::new(),
    }
}

/// Alpha links to Beta and contains Gamma.
fn sample() -> App {
    let idx = GraphIndex::build(vec![
        note("alpha", "Alpha", None, vec!["Beta"]),
        note("beta", "Beta", None, vec![]),
        note("gamma", "Gamma", Some(vec!["alpha"]), vec![]),
    ]);
    App::new(idx)
}

fn texts(lines: &[(String, bool)]) -> Vec<String> {
    lines.iter().map(|(t, _)| t.clone()).collect()
}

#[test]
fn new_app_starts_on_first_root_in_ego_mode() {
    let app = sample();
    assert_eq!(app.mode, ViewMode::Ego);
    assert!(app.running);
    assert_eq!(app.columns.len(), 1);
    let roots: Vec<String> = texts(&column_lines(&app, 0));
    assert_eq!(roots, vec!["Alpha".to_string(), "Beta".to_string()]);
    assert_eq!(app.active, Some(app.columns[0].items[0]));
    assert_eq!(texts(&ego_lines(&app)), vec!["● Alpha".to_string()]);
    assert_eq!(active_title(&app), "Alpha");
    assert_eq!(mode_label(app.mode), "EGO");
}

#[test]
fn unfolding_shows_references_with_badges() {
    let mut app = sample();
    handle_key(&mut app, Key::Char('l'));
    let lines = ego_lines(&app);
    assert_eq!(texts(&lines), vec!["● Alpha".to_string(), "  ▶ -> Beta".to_string()]);
    assert_eq!(lines[0].1, true);
    assert_eq!(lines[1].1, false);
    let visible = app.ego_visible();
    assert_eq!(visible[1].category, Some(RefKind::Conceptual));
    assert_eq!(visible[1].depth, 1);
}

#[test]
fn moving_focus_is_clamped_to_the_outline() {
    let mut app = sample();
    handle_key(&mut app, Key::Char('l'));
    handle_key(&mut app, Key::Char('j'));
    assert_eq!(app.ego_focus, 1);
    handle_key(&mut app, Key::Char('j'));
    assert_eq!(app.ego_focus, 1);
    handle_key(&mut app, Key::Char('k'));
    handle_key(&mut app, Key::Char('k'));
    assert_eq!(app.ego_focus, 0);
}

#[test]
fn a_note_already_shown_is_not_repeated() {
    let mut app = sample();
    handle_key(&mut app, Key::Char('l'));
    handle_key(&mut app, Key::Char('j'));
    handle_key(&mut app, Key::Char('l'));
    // Beta's only reference is the backlink to Alpha, which is already shown.
    assert_eq!(texts(&ego_lines(&app)), vec!["● Alpha".to_string(), "  ▼ -> Beta".to_string()]);
    assert_eq!(active_title(&app), "Beta");
}

#[test]
fn ascending_folds_then_climbs_to_the_parent_line() {
    let mut app = sample();
    handle_key(&mut app, Key::Char('l'));
    handle_key(&mut app, Key::Char('j'));
    handle_key(&mut app, Key::Char('l'));
    handle_key(&mut app, Key::Char('h'));
    assert_eq!(app.ego_focus, 1);
    assert_eq!(texts(&ego_lines(&app)), vec!["● Alpha".to_string(), "  ▶ -> Beta".to_string()]);
    handle_key(&mut app, Key::Char('h'));
    assert_eq!(app.ego_focus, 0);
    assert_eq!(texts(&ego_lines(&app)), vec!["● Alpha".to_string()]);
}

#[test]
fn enter_opens_the_focused_note() {
    let mut app = sample();
    handle_key(&mut app, Key::Char('l'));
    handle_key(&mut app, Key::Char('j'));
    handle_key(&mut app, Key::Enter);
    assert_eq!(app.ego_focus, 0);
    assert!(app.expanded.is_empty());
    assert_eq!(texts(&ego_lines(&app)), vec!["● Beta".to_string()]);
}

#[test]
fn spatial_mode_opens_and_closes_columns_of_contained_notes() {
    let mut app = sample();
    handle_key(&mut app, Key::Tab);
    assert_eq!(app.mode, ViewMode::Spatial);
    assert_eq!(mode_label(app.mode), "SPATIAL");
    assert_eq!(column_header(&app, 0), "roots");
    assert_eq!(nav_editor_split(&app), (Constraint::Percentage(30), Constraint::Percentage(70)));
    handle_key(&mut app, Key::Char('l'));
    assert_eq!(app.columns.len(), 2);
    assert_eq!(column_header(&app, 1), "Alpha");
    assert_eq!(column_lines(&app, 1), vec![("Gamma".to_string(), true)]);
    assert_eq!(active_title(&app), "Gamma");
    assert_eq!(nav_editor_split(&app), (Constraint::Percentage(60), Constraint::Percentage(40)));
    // Gamma contains nothing: no third column.
    handle_key(&mut app, Key::Char('l'));
    assert_eq!(app.columns.len(), 2);
    handle_key(&mut app, Key::Char('h'));
    assert_eq!(app.columns.len(), 1);
    // The first column is never closed.
    handle_key(&mut app, Key::Char('h'));
    assert_eq!(app.columns.len(), 1);
}

#[test]
fn three_columns_give_the_navigation_all_the_width() {
    let idx = GraphIndex::build(vec![
        note("a", "A", None, vec![]),
        note("b", "B", Some(vec!["a"]), vec![]),
        note("c", "C", Some(vec!["b"]), vec![]),
    ]);
    let mut app = App::new(idx);
    handle_key(&mut app, Key::Tab);
    handle_key(&mut app, Key::Char('l'));
    handle_key(&mut app, Key::Char('l'));
    assert_eq!(app.columns.len(), 3);
    assert_eq!(nav_editor_split(&app), (Constraint::Min(0), Constraint::Length(0)));
}

#[test]
fn spatial_focus_moves_within_the_last_column() {
    let mut app = sample();
    handle_key(&mut app, Key::Tab);
    handle_key(&mut app, Key::Char('j'));
    assert_eq!(app.columns[0].focus, 1);
    assert_eq!(active_title(&app), "Beta");
    handle_key(&mut app, Key::Char('j'));
    assert_eq!(app.columns[0].focus, 1);
    assert_eq!(
        column_lines(&app, 0),
        vec![("Alpha".to_string(), false), ("Beta".to_string(), true)]
    );
}

#[test]
fn toggling_twice_restores_the_view() {
    let mut app = sample();
    handle_key(&mut app, Key::Char('l'));
    let before = (app.mode, app.ego_focus, app.columns.len(), app.expanded.len(), app.active);
    handle_key(&mut app, Key::Tab);
    handle_key(&mut app, Key::Tab);
    assert_eq!((app.mode, app.ego_focus, app.columns.len(), app.expanded.len(), app.active), before);
}

#[test]
fn quit_keys_stop_the_app_and_other_keys_do_nothing() {
    let mut app = sample();
    handle_key(&mut app, Key::Char('x'));
    handle_key(&mut app, Key::Other);
    assert!(app.running);
    assert_eq!(app.mode, ViewMode::Ego);
    handle_key(&mut app, Key::Char('q'));
    assert!(!app.running);
    let mut app = sample();
    handle_key(&mut app, Key::Esc);
    assert!(!app.running);
}

#[test]
fn jump_opens_a_fuzzy_match() {
    let mut app = sample();
    app.jump("gam");
    assert_eq!(active_title(&app), "Gamma");
    app.jump("nothing like it");
    assert_eq!(active_title(&app), "Gamma");
}

#[test]
fn hints_follow_the_mode() {
    assert_eq!(hints(ViewMode::Ego), "j/k: nav | h/l: fold | Enter: root | /:jump | Tab: mode");
    assert_eq!(hints(ViewMode::Spatial), "j/k: nav | h/l: cols | Enter: open | /: jump | Tab: mode");
}

#[test]
fn an_empty_vault_has_nothing_focused() {
    let app = App::new(GraphIndex::build(vec![]));
    assert_eq!(app.active, None);
    assert!(ego_lines(&app).is_empty());
    assert_eq!(active_title(&app), "None");
}

#[test]
fn unfolding_then_folding_restores_the_outline() {
    let mut app = sample();
    let before = (texts(&ego_lines(&app)), app.ego_focus, app.expanded.len());
    handle_key(&mut app, Key::Char('l'));
    assert_eq!(app.expanded.len(), 1);
    handle_key(&mut app, Key::Char('h'));
    assert_eq!((texts(&ego_lines(&app)), app.ego_focus, app.expanded.len()), before);
    // The same from a line further down.
    handle_key(&mut app, Key::Char('l'));
    handle_key(&mut app, Key::Char('j'));
    let before = (texts(&ego_lines(&app)), app.ego_focus, app.expanded.len());
    handle_key(&mut app, Key::Char('l'));
    handle_key(&mut app, Key::Char('h'));
    assert_eq!((texts(&ego_lines(&app)), app.ego_focus, app.expanded.len()), before);
}

#[test]
fn outline_depths_step_down_one_level_at_a_time() {
    let idx = GraphIndex::build(vec![
        note("a", "A", None, vec!["B"]),
        note("b", "B", None, vec!["C"]),
        note("c", "C", None, vec![]),
    ]);
    let mut app = App::new(idx);
    handle_key(&mut app, Key::Char('l'));
    handle_key(&mut app, Key::Char('j'));
    handle_key(&mut app, Key::Char('l'));
    let depths: Vec<usize> = app.ego_visible().iter().map(|e| e.depth).collect();
    assert_eq!(depths, vec![0, 1, 2]);
    for w in depths.windows(2) {
        assert!(1 <= w[1] && w[1] <= w[0] + 1);
    }
}
