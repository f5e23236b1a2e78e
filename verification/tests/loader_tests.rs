use riff_dag::loader::{load_events, LoadEvent};
use riff_dag::session::App;

fn node_event(id: &str, label: Option<&str>, tags: Option<&[&str]>) -> LoadEvent {
    LoadEvent::Node {
        id: id.to_string(),
        label: label.map(|l| l.to_string()),
        span: None,
        tags: tags.map(|ts| ts.iter().map(|t| t.to_string()).collect()),
        ts: None,
    }
}

fn edge_event(from: &str, to: &str) -> LoadEvent {
    LoadEvent::Edge { from: from.to_string(), to: to.to_string() }
}

#[test]
fn load_fills_the_store_in_event_order() {
    let (gm, rejected) = load_events(vec![
        node_event("A", Some("first"), None),
        node_event("B", None, Some(&["tool"])),
        edge_event("A", "B"),
    ]);
    assert!(rejected.is_empty());
    assert_eq!(gm.node_count(), 2);
    assert_eq!(gm.node(0).id, "A");
    assert_eq!(gm.node(0).label, "first");
    assert_eq!(gm.node(1).id, "B");
    assert_eq!(gm.node(1).label, "", "an absent label defaults to empty");
    assert_eq!(gm.node(1).tags, vec!["tool".to_string()]);
    assert_eq!(gm.children_of(0), vec![1]);
}

#[test]
fn load_reports_edges_with_unknown_endpoints() {
    let (gm, rejected) = load_events(vec![
        node_event("A", None, None),
        edge_event("A", "X"),
    ]);
    assert_eq!(rejected.len(), 1);
    assert_eq!(rejected[0].from, "A");
    assert_eq!(rejected[0].to, "X");
    assert_eq!(gm.node_count(), 1);
    assert_eq!(gm.children_of(0), Vec::<usize>::new());
}

#[test]
fn load_order_matters_for_edges() {
    let (gm, rejected) = load_events(vec![
        edge_event("A", "B"),
        node_event("A", None, None),
        node_event("B", None, None),
        edge_event("A", "B"),
    ]);
    assert_eq!(rejected.len(), 1, "the early edge is rejected, the late one accepted");
    assert_eq!(gm.children_of(0), vec![1]);
}

#[test]
fn later_node_event_overwrites_fields() {
    let (gm, _) = load_events(vec![
        node_event("A", Some("old"), Some(&["x"])),
        node_event("A", Some("new"), None),
    ]);
    assert_eq!(gm.node_count(), 1);
    assert_eq!(gm.node(0).label, "new");
    assert!(gm.node(0).tags.is_empty(), "the overwrite replaces all fields, not a merge");
}

#[test]
fn end_to_end_neighborhood_of_selected_node() {
    let (gm, rejected) = load_events(vec![
        node_event("A", None, None),
        node_event("B", None, None),
        node_event("C", None, None),
        edge_event("A", "B"),
        edge_event("B", "C"),
    ]);
    assert!(rejected.is_empty());
    let mut app = riff_dag::session::App::new(gm);
    app.on_down();
    let focal = app.selected().expect("a nonempty store always has a selection");
    assert_eq!(focal, 1, "the selection moved to B");
    let (anc, desc) = riff_dag::layers::layer_neighborhood(&app.gm, focal, 2);
    assert_eq!(anc, vec![vec![0]], "ancestor layers are [[A]]");
    assert_eq!(desc, vec![vec![2]], "descendant layers are [[C]]");
}

#[test]
fn loaded_store_drives_a_session() {
    let (gm, _) = load_events(vec![
        node_event("A", None, Some(&["error"])),
        node_event("B", None, Some(&["tool"])),
    ]);
    let app = App::new(gm).with_filter("ERR");
    assert_eq!(app.order, vec![0]);
}
