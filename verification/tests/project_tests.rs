use riff_dag::columns::build_columns;
use riff_dag::layers::layer_neighborhood;
use riff_dag::project::project;
use riff_dag::store::{GraphModel, NodeData};

fn nd(id: &str, label: &str) -> NodeData {
    NodeData {
        id: id.to_string(),
        label: label.to_string(),
        span: String::new(),
        tags: Vec::new(),
        ts: String::new(),
    }
}

fn chain() -> (GraphModel, usize, usize, usize) {
    let mut gm = GraphModel::new();
    let a = gm.upsert_node(&"A".to_string(), nd("A", ""));
    let b = gm.upsert_node(&"B".to_string(), nd("B", ""));
    let c = gm.upsert_node(&"C".to_string(), nd("C", ""));
    gm.add_edge(&"A".to_string(), &"B".to_string()).unwrap();
    gm.add_edge(&"B".to_string(), &"C".to_string()).unwrap();
    (gm, a, b, c)
}

#[test]
fn chain_positions_in_half_units() {
    let (gm, a, b, c) = chain();
    let (anc, desc) = layer_neighborhood(&gm, b, 2);
    let pos = project(&anc, &desc, b);
    // x = 10 for the single ancestor column, 50 for the center, 70 for
    // the single descendant column; a one-node layer sits half a unit
    // above the midline. All doubled.
    assert_eq!(pos, vec![(a, 20, 49), (b, 100, 50), (c, 140, 49)]);
}

#[test]
fn layer_members_stack_around_the_midline() {
    let mut gm = GraphModel::new();
    let a = gm.upsert_node(&"A".to_string(), nd("A", ""));
    let b = gm.upsert_node(&"B".to_string(), nd("B", ""));
    let c = gm.upsert_node(&"C".to_string(), nd("C", ""));
    gm.add_edge(&"A".to_string(), &"B".to_string()).unwrap();
    gm.add_edge(&"A".to_string(), &"C".to_string()).unwrap();
    let (anc, desc) = layer_neighborhood(&gm, a, 2);
    let pos = project(&anc, &desc, a);
    // The two children share the column at x = 70 (doubled: 140) and
    // occupy y = 24 and y = 25 (doubled: 48 and 50).
    assert_eq!(pos, vec![(a, 100, 50), (b, 140, 48), (c, 140, 50)]);
}

#[test]
fn deeper_layers_move_outward() {
    let mut gm = GraphModel::new();
    let a = gm.upsert_node(&"A".to_string(), nd("A", ""));
    let b = gm.upsert_node(&"B".to_string(), nd("B", ""));
    let c = gm.upsert_node(&"C".to_string(), nd("C", ""));
    gm.add_edge(&"A".to_string(), &"B".to_string()).unwrap();
    gm.add_edge(&"B".to_string(), &"C".to_string()).unwrap();
    let (anc, desc) = layer_neighborhood(&gm, c, 2);
    assert!(desc.is_empty());
    let pos = project(&anc, &desc, c);
    // Ancestors outermost first: A at x = 10 (doubled 20), B at x = 25
    // (doubled 50), the focal node at the center.
    assert_eq!(pos, vec![(a, 20, 49), (b, 50, 49), (c, 100, 50)]);
}

#[test]
fn cycle_member_is_placed_on_both_sides_with_the_later_entry_last() {
    let mut gm = GraphModel::new();
    let a = gm.upsert_node(&"A".to_string(), nd("A", ""));
    let b = gm.upsert_node(&"B".to_string(), nd("B", ""));
    gm.add_edge(&"A".to_string(), &"B".to_string()).unwrap();
    gm.add_edge(&"B".to_string(), &"A".to_string()).unwrap();
    let (anc, desc) = layer_neighborhood(&gm, a, 2);
    let pos = project(&anc, &desc, a);
    // B is both the only ancestor and the only descendant; it is listed
    // once per placement, and a consumer that reads the list in order
    // keeps the descendant-side position.
    assert_eq!(pos, vec![(b, 20, 49), (a, 100, 50), (b, 140, 49)]);
}

#[test]
fn columns_wrap_the_focal_label_and_pad_heights() {
    let mut gm = GraphModel::new();
    let a = gm.upsert_node(&"A".to_string(), nd("A", ""));
    gm.upsert_node(&"B".to_string(), nd("B", "beta"));
    gm.upsert_node(&"C".to_string(), nd("C", ""));
    gm.add_edge(&"A".to_string(), &"B".to_string()).unwrap();
    gm.add_edge(&"A".to_string(), &"C".to_string()).unwrap();
    let (anc, desc) = layer_neighborhood(&gm, a, 2);
    let cols = build_columns(&gm, &anc, &desc, a);
    assert_eq!(
        cols,
        vec![
            vec!["[A]".to_string(), "".to_string()],
            vec!["B \u{b7} beta".to_string(), "C".to_string()],
        ],
        "the center column is padded to the height of the child layer"
    );
}

#[test]
fn columns_for_a_chain_have_one_row() {
    let (gm, _, b, _) = chain();
    let (anc, desc) = layer_neighborhood(&gm, b, 2);
    let cols = build_columns(&gm, &anc, &desc, b);
    assert_eq!(
        cols,
        vec![
            vec!["A".to_string()],
            vec!["[B]".to_string()],
            vec!["C".to_string()],
        ]
    );
}

#[test]
fn columns_for_an_isolated_node_are_just_the_center() {
    let mut gm = GraphModel::new();
    let a = gm.upsert_node(&"only".to_string(), nd("only", ""));
    let (anc, desc) = layer_neighborhood(&gm, a, 2);
    let cols = build_columns(&gm, &anc, &desc, a);
    assert_eq!(cols, vec![vec!["[only]".to_string()]]);
}
