use riff_dag::store::{GraphModel, NodeData};

fn nd(id: &str, label: &str, span: &str, tags: &[&str], ts: &str) -> NodeData {
    NodeData {
        id: id.to_string(),
        label: label.to_string(),
        span: span.to_string(),
        tags: tags.iter().map(|t| t.to_string()).collect(),
        ts: ts.to_string(),
    }
}

#[test]
fn upsert_inserts_and_returns_stable_indices() {
    let mut gm = GraphModel::new();
    let a = gm.upsert_node(&"A".to_string(), nd("A", "first", "", &[], ""));
    let b = gm.upsert_node(&"B".to_string(), nd("B", "second", "", &[], ""));
    assert_eq!(a, 0);
    assert_eq!(b, 1);
    assert_eq!(gm.node_count(), 2);
}

#[test]
fn upsert_replaces_all_fields_and_keeps_position() {
    let mut gm = GraphModel::new();
    gm.upsert_node(&"A".to_string(), nd("A", "old", "s1", &["t1"], "e1"));
    gm.upsert_node(&"B".to_string(), nd("B", "", "", &[], ""));
    let a2 = gm.upsert_node(&"A".to_string(), nd("A", "new", "s2", &["t2", "t3"], "e2"));
    assert_eq!(a2, 0, "the updated node keeps its enumeration position");
    assert_eq!(gm.node_count(), 2);
    let n = gm.node(0);
    assert_eq!(n.id, "A");
    assert_eq!(n.label, "new");
    assert_eq!(n.span, "s2");
    assert_eq!(n.tags, vec!["t2".to_string(), "t3".to_string()]);
    assert_eq!(n.ts, "e2");
    assert_eq!(gm.node(1).id, "B");
}

#[test]
fn ensure_node_id_creates_stub_once() {
    let mut gm = GraphModel::new();
    let x = gm.ensure_node_id(&"X".to_string());
    assert_eq!(x, 0);
    assert_eq!(gm.node_count(), 1);
    let n = gm.node(0);
    assert_eq!(n.id, "X");
    assert_eq!(n.label, "");
    assert_eq!(n.span, "");
    assert!(n.tags.is_empty());
    assert_eq!(n.ts, "");
    let again = gm.ensure_node_id(&"X".to_string());
    assert_eq!(again, 0);
    assert_eq!(gm.node_count(), 1);
}

#[test]
fn add_edge_rejects_missing_endpoints() {
    let mut gm = GraphModel::new();
    gm.upsert_node(&"A".to_string(), nd("A", "", "", &[], ""));
    let r = gm.add_edge(&"A".to_string(), &"X".to_string());
    let e = r.expect_err("edge to an unknown endpoint must be rejected");
    assert_eq!(e.from, "A");
    assert_eq!(e.to, "X");
    assert_eq!(gm.children_of(0), Vec::<usize>::new());
    let r2 = gm.add_edge(&"X".to_string(), &"A".to_string());
    assert!(r2.is_err());
    assert_eq!(gm.parents_of(0), Vec::<usize>::new());
}

#[test]
fn rejected_edge_is_not_healed_by_later_insert() {
    let mut gm = GraphModel::new();
    gm.upsert_node(&"A".to_string(), nd("A", "", "", &[], ""));
    assert!(gm.add_edge(&"A".to_string(), &"X".to_string()).is_err());
    let x = gm.upsert_node(&"X".to_string(), nd("X", "late", "", &[], ""));
    assert_eq!(gm.children_of(0), Vec::<usize>::new());
    assert_eq!(gm.parents_of(x), Vec::<usize>::new());
    assert_eq!(gm.degree(0), (0, 0));
}

#[test]
fn adjacency_follows_edge_insertion_order() {
    let mut gm = GraphModel::new();
    let a = gm.upsert_node(&"A".to_string(), nd("A", "", "", &[], ""));
    let b = gm.upsert_node(&"B".to_string(), nd("B", "", "", &[], ""));
    let c = gm.upsert_node(&"C".to_string(), nd("C", "", "", &[], ""));
    gm.add_edge(&"A".to_string(), &"B".to_string()).unwrap();
    gm.add_edge(&"A".to_string(), &"C".to_string()).unwrap();
    gm.add_edge(&"C".to_string(), &"B".to_string()).unwrap();
    assert_eq!(gm.children_of(a), vec![b, c]);
    assert_eq!(gm.parents_of(b), vec![a, c]);
    assert_eq!(gm.degree(b), (2, 0));
    assert_eq!(gm.degree(a), (0, 2));
}

#[test]
fn parallel_edges_and_self_loops_are_kept() {
    let mut gm = GraphModel::new();
    let a = gm.upsert_node(&"A".to_string(), nd("A", "", "", &[], ""));
    let b = gm.upsert_node(&"B".to_string(), nd("B", "", "", &[], ""));
    gm.add_edge(&"A".to_string(), &"B".to_string()).unwrap();
    gm.add_edge(&"A".to_string(), &"B".to_string()).unwrap();
    gm.add_edge(&"A".to_string(), &"A".to_string()).unwrap();
    assert_eq!(gm.children_of(a), vec![b, b, a]);
    assert_eq!(gm.parents_of(a), vec![a]);
    assert_eq!(gm.degree(a), (1, 3));
}

#[test]
fn display_label_joins_id_and_label() {
    let with_label = nd("A", "hello", "", &[], "");
    assert_eq!(with_label.display_label(), "A \u{b7} hello");
    let without_label = nd("A", "", "", &[], "");
    assert_eq!(without_label.display_label(), "A");
}
