use riff_dag::session::{App, DagViewMode, KeyInput, Mode};
use riff_dag::store::{GraphModel, NodeData};

fn nd(id: &str, label: &str, span: &str, tags: &[&str]) -> NodeData {
    NodeData {
        id: id.to_string(),
        label: label.to_string(),
        span: span.to_string(),
        tags: tags.iter().map(|t| t.to_string()).collect(),
        ts: String::new(),
    }
}

fn sample_app() -> App {
    let mut gm = GraphModel::new();
    gm.upsert_node(&"n1".to_string(), nd("n1", "alpha", "", &["error"]));
    gm.upsert_node(&"n2".to_string(), nd("n2", "beta", "", &["tool"]));
    gm.upsert_node(&"n3".to_string(), nd("n3", "gamma", "", &[]));
    App::new(gm)
}

fn ch(c: char) -> KeyInput {
    KeyInput::Char { ch: c, ctrl: false }
}

#[test]
fn new_app_shows_everything_in_insertion_order() {
    let app = sample_app();
    assert_eq!(app.order, vec![0, 1, 2]);
    assert_eq!(app.selected, Some(0));
    assert_eq!(app.filter_text, "");
    assert_eq!(app.mode, Mode::Normal);
    assert_eq!(app.dag_view_mode, DagViewMode::Text);
}

#[test]
fn new_app_over_empty_store_has_no_selection() {
    let app = App::new(GraphModel::new());
    assert!(app.order.is_empty());
    assert_eq!(app.selected, None);
    assert_eq!(app.selected(), None);
}

#[test]
fn selection_wraps_both_ways() {
    let mut app = sample_app();
    app.on_up();
    assert_eq!(app.selected, Some(2), "moving up from the top wraps to the bottom");
    app.on_down();
    assert_eq!(app.selected, Some(0), "moving down from the bottom wraps to the top");
    app.on_down();
    assert_eq!(app.selected, Some(1));
    app.on_up();
    assert_eq!(app.selected, Some(0));
}

#[test]
fn selected_returns_the_store_index() {
    let mut app = sample_app();
    app.on_down();
    assert_eq!(app.selected(), Some(1));
}

#[test]
fn filter_matches_tags_case_insensitively() {
    let mut app = sample_app();
    app.apply_filter("err");
    assert_eq!(app.order, vec![0], "only the error-tagged node matches");
    assert_eq!(app.selected, Some(0));
}

#[test]
fn filter_lowercases_the_haystack() {
    let mut gm = GraphModel::new();
    gm.upsert_node(&"n1".to_string(), nd("n1", "alpha", "", &["ERROR"]));
    gm.upsert_node(&"n2".to_string(), nd("n2", "beta", "", &["tool"]));
    let mut app = App::new(gm);
    app.apply_filter("err");
    assert_eq!(app.order, vec![0], "an upper-case tag still matches a lower-case query");
}

#[test]
fn filter_query_is_trimmed_and_lowercased() {
    let mut app = sample_app();
    app.apply_filter("  ERR  ");
    assert_eq!(app.filter_text, "err");
    assert_eq!(app.order, vec![0]);
}

#[test]
fn filter_matches_id_label_and_span() {
    let mut gm = GraphModel::new();
    gm.upsert_node(&"abc".to_string(), nd("abc", "", "", &[]));
    gm.upsert_node(&"x".to_string(), nd("x", "deF", "", &[]));
    gm.upsert_node(&"y".to_string(), nd("y", "", "ghi", &[]));
    let mut app = App::new(gm);
    app.apply_filter("bc");
    assert_eq!(app.order, vec![0]);
    app.apply_filter("def");
    assert_eq!(app.order, vec![1]);
    app.apply_filter("ghi");
    assert_eq!(app.order, vec![2]);
}

#[test]
fn filter_is_idempotent() {
    let mut app = sample_app();
    app.apply_filter("a");
    let once = app.order.clone();
    app.apply_filter("a");
    assert_eq!(app.order, once);
}

#[test]
fn clearing_restores_full_enumeration() {
    let mut app = sample_app();
    app.apply_filter("err");
    app.apply_filter("tool");
    app.apply_filter("");
    assert_eq!(app.order, vec![0, 1, 2]);
    assert_eq!(app.filter_text, "");
}

#[test]
fn empty_result_clears_selection_and_later_clamps() {
    let mut app = sample_app();
    app.apply_filter("zzz");
    assert!(app.order.is_empty());
    assert_eq!(app.selected, None);
    app.on_up();
    assert_eq!(app.selected, None);
    app.on_down();
    assert_eq!(app.selected, None);
    app.apply_filter("");
    assert_eq!(app.selected, Some(0), "selection comes back once the list is nonempty");
}

#[test]
fn selection_tracks_the_node_across_recomputes() {
    let mut app = sample_app();
    app.on_down();
    assert_eq!(app.selected(), Some(1), "n2 is selected");
    app.apply_filter("beta");
    assert_eq!(app.order, vec![1]);
    assert_eq!(app.selected, Some(0), "the selection follows n2 into the filtered list");
    app.apply_filter("");
    assert_eq!(app.order, vec![0, 1, 2]);
    assert_eq!(app.selected, Some(1), "the selection follows n2 back to its full-list position");
    assert_eq!(app.selected(), Some(1));
}

#[test]
fn clearing_keeps_the_selected_node_when_still_visible() {
    let mut gm = GraphModel::new();
    gm.upsert_node(&"a".to_string(), nd("a", "", "", &[]));
    gm.upsert_node(&"b".to_string(), nd("b", "bee", "", &[]));
    let mut app = App::new(gm).with_filter("bee");
    assert_eq!(app.order, vec![1], "only b is visible");
    assert_eq!(app.selected, Some(0));
    app.apply_filter("");
    assert_eq!(app.order, vec![0, 1]);
    assert_eq!(
        app.selected,
        Some(1),
        "b is still visible, so the selection stays on b rather than on index 0"
    );
}

#[test]
fn selection_is_clamped_when_the_list_shrinks() {
    let mut app = sample_app();
    app.on_down();
    app.on_down();
    assert_eq!(app.selected, Some(2));
    app.apply_filter("err");
    assert_eq!(app.order.len(), 1);
    assert_eq!(app.selected, Some(0), "the index is clamped to the last valid one");
}

#[test]
fn with_filter_applies_at_construction() {
    let mut gm = GraphModel::new();
    gm.upsert_node(&"n1".to_string(), nd("n1", "alpha", "", &["error"]));
    gm.upsert_node(&"n2".to_string(), nd("n2", "beta", "", &["tool"]));
    let app = App::new(gm).with_filter("tool");
    assert_eq!(app.order, vec![1]);
}

#[test]
fn keys_drive_the_mode_machine() {
    let mut app = sample_app();
    assert!(!app.handle_key(ch('/')));
    assert_eq!(app.mode, Mode::Filter);
    assert!(!app.handle_key(KeyInput::Esc));
    assert_eq!(app.mode, Mode::Normal);
    assert!(!app.handle_key(ch('?')));
    assert_eq!(app.mode, Mode::HelpOverlay);
    assert!(!app.handle_key(ch('?')));
    assert_eq!(app.mode, Mode::Normal);
    assert!(app.handle_key(ch('q')), "q quits from browsing");
}

#[test]
fn typing_in_filter_mode_edits_and_reapplies() {
    let mut app = sample_app();
    app.handle_key(ch('/'));
    app.handle_key(ch('e'));
    app.handle_key(ch('r'));
    app.handle_key(ch('r'));
    assert_eq!(app.filter_text, "err");
    assert_eq!(app.order, vec![0]);
    app.handle_key(KeyInput::Backspace);
    assert_eq!(app.filter_text, "er");
    assert_eq!(app.order, vec![0]);
    app.handle_key(KeyInput::Backspace);
    app.handle_key(KeyInput::Backspace);
    assert_eq!(app.filter_text, "");
    assert_eq!(app.order, vec![0, 1, 2]);
}

#[test]
fn control_characters_are_ignored_in_filter_mode() {
    let mut app = sample_app();
    app.handle_key(ch('/'));
    app.handle_key(KeyInput::Char { ch: 'x', ctrl: true });
    assert_eq!(app.filter_text, "");
    assert_eq!(app.order, vec![0, 1, 2]);
}

#[test]
fn accepting_or_cancelling_keeps_the_filter_text() {
    let mut app = sample_app();
    app.handle_key(ch('/'));
    app.handle_key(ch('e'));
    app.handle_key(KeyInput::Enter);
    assert_eq!(app.mode, Mode::Normal);
    assert_eq!(app.filter_text, "e", "accept keeps the text");
    app.handle_key(ch('/'));
    app.handle_key(KeyInput::Esc);
    assert_eq!(app.filter_text, "e", "cancel keeps the text too");
}

#[test]
fn clear_key_resets_the_filter_from_browsing() {
    let mut app = sample_app();
    app.apply_filter("err");
    assert!(!app.handle_key(ch('c')));
    assert_eq!(app.filter_text, "");
    assert_eq!(app.order, vec![0, 1, 2]);
}

#[test]
fn j_and_k_move_like_the_arrows() {
    let mut app = sample_app();
    app.handle_key(ch('j'));
    assert_eq!(app.selected, Some(1));
    app.handle_key(ch('k'));
    assert_eq!(app.selected, Some(0));
    app.handle_key(KeyInput::Down);
    assert_eq!(app.selected, Some(1));
    app.handle_key(KeyInput::Up);
    assert_eq!(app.selected, Some(0));
}

#[test]
fn toggling_the_view_twice_changes_nothing() {
    let mut app = sample_app();
    app.apply_filter("a");
    let order = app.order.clone();
    let selected = app.selected;
    let filter = app.filter_text.clone();
    let mode = app.mode;
    assert_eq!(app.dag_view_mode, DagViewMode::Text);
    app.handle_key(KeyInput::Tab);
    assert_eq!(app.dag_view_mode, DagViewMode::Canvas);
    app.handle_key(KeyInput::Tab);
    assert_eq!(app.dag_view_mode, DagViewMode::Text);
    assert_eq!(app.order, order);
    assert_eq!(app.selected, selected);
    assert_eq!(app.filter_text, filter);
    assert_eq!(app.mode, mode);
}
