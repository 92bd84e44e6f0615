use optimize::ir::{ColRef, Expr, Plan};
use optimize::p2::{components, connecting_keys, harvest_tree, sort_target};

fn c(rel: usize, col: usize) -> ColRef {
    ColRef { rel, col }
}

fn scan(rel: usize) -> Plan {
    Plan::Scan { rel }
}

fn join(l: Plan, r: Plan, on: Vec<(ColRef, ColRef)>) -> Plan {
    Plan::Join { left: Box::new(l), right: Box::new(r), on, filter: None }
}

#[test]
fn harvest_collects_leaves_left_to_right_and_keys_bottom_up() {
    // ((0 ⋈ 1) ⋈ filtered 2)
    let filtered = Plan::Filter { input: Box::new(scan(2)), predicate: Expr::Bool(true) };
    let tree = join(
        join(scan(0), scan(1), vec![(c(0, 1), c(1, 0))]),
        filtered.clone(),
        vec![(c(1, 2), c(2, 0))],
    );
    let mut leaves = Vec::new();
    let mut edges = vec![(c(9, 9), c(9, 9))];
    harvest_tree(tree, &mut leaves, &mut edges);
    assert_eq!(leaves, vec![scan(0), scan(1), filtered]);
    assert_eq!(edges, vec![(c(9, 9), c(9, 9)), (c(0, 1), c(1, 0)), (c(1, 2), c(2, 0))]);
}

#[test]
fn harvest_of_a_single_leaf_adds_no_keys() {
    let mut leaves = Vec::new();
    let mut edges = Vec::new();
    harvest_tree(scan(3), &mut leaves, &mut edges);
    assert_eq!(leaves, vec![scan(3)]);
    assert!(edges.is_empty());
}

#[test]
fn connecting_keys_orient_from_the_joined_set() {
    let edges = vec![(c(0, 1), c(1, 0)), (c(2, 0), c(1, 2)), (c(0, 3), c(3, 1)), (c(2, 1), c(0, 0))];
    // {0, 2} joined to 1: both pairs, each written set-side first.
    let keys = connecting_keys(0b101, 1, &edges);
    assert_eq!(keys, vec![(c(0, 1), c(1, 0)), (c(2, 0), c(1, 2))]);
    // {1} joined to 3: nothing connects.
    assert!(connecting_keys(0b10, 3, &edges).is_empty());
    // {3} joined to 0: the pair is turned around.
    assert_eq!(connecting_keys(0b1000, 0, &edges), vec![(c(3, 1), c(0, 3))]);
}

#[test]
fn components_of_a_disconnected_graph() {
    // 0-1 and 2-3 joined, 4 alone.
    let rels = vec![0, 1, 2, 3, 4];
    let edges = vec![(c(0, 0), c(1, 0)), (c(3, 0), c(2, 1))];
    let comps = components(&rels, &edges);
    assert_eq!(comps, vec![0b00011, 0b10000, 0b01100]);
}

#[test]
fn components_of_a_connected_graph_is_one_set() {
    let rels = vec![2, 0, 1];
    let edges = vec![(c(2, 0), c(1, 0)), (c(1, 1), c(0, 0))];
    assert_eq!(components(&rels, &edges), vec![0b111]);
    assert_eq!(components(&rels, &Vec::new()), vec![0b100, 0b001, 0b010]);
}

#[test]
fn sort_target_needs_every_key_to_be_a_column() {
    let keys = vec![(Expr::Col(c(1, 0)), true), (Expr::Col(c(0, 2)), false)];
    assert_eq!(sort_target(&keys), Some(vec![(c(1, 0), true), (c(0, 2), false)]));
    let mixed = vec![(Expr::Col(c(1, 0)), true), (Expr::Int(3), false)];
    assert_eq!(sort_target(&mixed), None);
    assert_eq!(sort_target(&Vec::new()), Some(Vec::new()));
}
