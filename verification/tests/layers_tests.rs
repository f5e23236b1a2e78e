use riff_dag::layers::layer_neighborhood;
use riff_dag::store::{GraphModel, NodeData};

fn node(id: &str) -> NodeData {
    NodeData {
        id: id.to_string(),
        label: String::new(),
        span: String::new(),
        tags: Vec::new(),
        ts: String::new(),
    }
}

fn add(gm: &mut GraphModel, id: &str) -> usize {
    gm.upsert_node(&id.to_string(), node(id))
}

fn edge(gm: &mut GraphModel, from: &str, to: &str) {
    gm.add_edge(&from.to_string(), &to.to_string()).unwrap();
}

#[test]
fn chain_around_middle_node() {
    let mut gm = GraphModel::new();
    let a = add(&mut gm, "A");
    let b = add(&mut gm, "B");
    let c = add(&mut gm, "C");
    edge(&mut gm, "A", "B");
    edge(&mut gm, "B", "C");
    let (anc, desc) = layer_neighborhood(&gm, b, 2);
    assert_eq!(anc, vec![vec![a]]);
    assert_eq!(desc, vec![vec![c]]);
}

#[test]
fn two_levels_each_side() {
    let mut gm = GraphModel::new();
    let a = add(&mut gm, "A");
    let b = add(&mut gm, "B");
    let c = add(&mut gm, "C");
    let d = add(&mut gm, "D");
    let e = add(&mut gm, "E");
    edge(&mut gm, "A", "B");
    edge(&mut gm, "B", "C");
    edge(&mut gm, "C", "D");
    edge(&mut gm, "D", "E");
    let (anc, desc) = layer_neighborhood(&gm, c, 2);
    assert_eq!(anc, vec![vec![a], vec![b]], "ancestors come outermost first");
    assert_eq!(desc, vec![vec![d], vec![e]], "descendants come innermost first");
}

#[test]
fn diamond_is_deduplicated_within_a_layer() {
    let mut gm = GraphModel::new();
    let a = add(&mut gm, "A");
    let b = add(&mut gm, "B");
    let c = add(&mut gm, "C");
    let d = add(&mut gm, "D");
    edge(&mut gm, "A", "B");
    edge(&mut gm, "A", "C");
    edge(&mut gm, "B", "D");
    edge(&mut gm, "C", "D");
    let (_, desc) = layer_neighborhood(&gm, a, 2);
    assert_eq!(desc, vec![vec![b, c], vec![d]], "D is reachable twice but listed once");
    let (anc, _) = layer_neighborhood(&gm, d, 2);
    assert_eq!(anc, vec![vec![a], vec![b, c]]);
}

#[test]
fn visited_nodes_do_not_reappear_at_greater_depth() {
    let mut gm = GraphModel::new();
    let a = add(&mut gm, "A");
    let b = add(&mut gm, "B");
    edge(&mut gm, "A", "B");
    edge(&mut gm, "B", "A");
    let (anc, desc) = layer_neighborhood(&gm, a, 2);
    assert_eq!(desc, vec![vec![b]], "the focal node is not re-added as its own descendant");
    assert_eq!(anc, vec![vec![b]], "the focal node is not re-added as its own ancestor");
}

#[test]
fn cycle_member_appears_on_both_sides() {
    let mut gm = GraphModel::new();
    let a = add(&mut gm, "A");
    let b = add(&mut gm, "B");
    edge(&mut gm, "A", "B");
    edge(&mut gm, "B", "A");
    let (anc, desc) = layer_neighborhood(&gm, a, 2);
    assert!(anc.iter().any(|l| l.contains(&b)));
    assert!(desc.iter().any(|l| l.contains(&b)));
}

#[test]
fn isolated_node_has_empty_layers() {
    let mut gm = GraphModel::new();
    let a = add(&mut gm, "A");
    let (anc, desc) = layer_neighborhood(&gm, a, 2);
    assert!(anc.is_empty());
    assert!(desc.is_empty());
}

#[test]
fn depth_zero_gives_no_layers() {
    let mut gm = GraphModel::new();
    let a = add(&mut gm, "A");
    let b = add(&mut gm, "B");
    edge(&mut gm, "A", "B");
    let (anc, desc) = layer_neighborhood(&gm, a, 0);
    assert!(anc.is_empty());
    assert!(desc.is_empty());
    let _ = b;
}

#[test]
fn self_loop_lists_focal_neighbors_but_not_focal() {
    let mut gm = GraphModel::new();
    let a = add(&mut gm, "A");
    let b = add(&mut gm, "B");
    edge(&mut gm, "A", "A");
    edge(&mut gm, "A", "B");
    let (anc, desc) = layer_neighborhood(&gm, a, 2);
    assert_eq!(desc, vec![vec![b]], "the self-loop does not put the focal node in a layer");
    assert!(anc.is_empty(), "the only parent of A is A itself, which is already visited");
}
