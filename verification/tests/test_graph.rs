use rete_nn::phase_1::graph::{backward_order, is_well_formed, topological_order};

// output = square + square, square = input * input: nodes 0, 1, 2
fn shared_square() -> Vec<Vec<usize>> {
    vec![vec![1, 1], vec![2, 2], vec![]]
}

#[test]
fn backward_order_visits_shared_nodes_once() {
    assert_eq!(backward_order(&shared_square(), 0), Some(vec![0, 1, 2]));
}

#[test]
fn backward_order_treats_equal_values_as_distinct_nodes() {
    // product = left * right, where left and right hold the same number
    let parents = vec![vec![1, 2], vec![], vec![]];
    assert_eq!(backward_order(&parents, 0), Some(vec![0, 2, 1]));
}

#[test]
fn backward_order_of_a_lone_node() {
    assert_eq!(backward_order(&vec![vec![]], 0), Some(vec![0]));
}

#[test]
fn backward_order_skips_nodes_that_do_not_feed_the_root() {
    // node 1 is computed from node 0, but the pass starts at node 0
    let parents = vec![vec![2], vec![0], vec![]];
    assert_eq!(backward_order(&parents, 0), Some(vec![0, 2]));
}

#[test]
fn backward_order_puts_every_node_before_its_parents() {
    // a diamond: 0 from 1 and 2, both from 3
    let parents = vec![vec![1, 2], vec![3], vec![3], vec![]];
    let order = backward_order(&parents, 0).unwrap();
    assert_eq!(order, vec![0, 2, 1, 3]);
    let position = |node: usize| order.iter().position(|&n| n == node).unwrap();
    for (node, ps) in parents.iter().enumerate() {
        for &p in ps {
            assert!(position(node) < position(p));
        }
    }
}

#[test]
fn backward_order_refuses_a_root_outside_the_graph() {
    assert_eq!(backward_order(&shared_square(), 3), None);
    assert_eq!(backward_order(&vec![], 0), None);
}

#[test]
fn backward_order_refuses_a_parent_outside_the_graph() {
    let parents = vec![vec![1], vec![5]];
    assert_eq!(backward_order(&parents, 0), None);
}

#[test]
fn backward_order_of_a_cycle_visits_each_node_once() {
    let parents = vec![vec![1], vec![0]];
    assert_eq!(backward_order(&parents, 0), Some(vec![0, 1]));
}

#[test]
fn topological_order_finishes_parents_first() {
    assert_eq!(topological_order(&shared_square(), 0), vec![2, 1, 0]);
    let diamond = vec![vec![1, 2], vec![3], vec![3], vec![]];
    assert_eq!(topological_order(&diamond, 0), vec![3, 1, 2, 0]);
    assert_eq!(topological_order(&diamond, 2), vec![3, 2]);
}

#[test]
fn well_formed_graphs_name_only_their_own_nodes() {
    assert!(is_well_formed(&shared_square()));
    assert!(is_well_formed(&vec![]));
    assert!(!is_well_formed(&vec![vec![0, 1]]));
    assert!(!is_well_formed(&vec![vec![], vec![usize::MAX]]));
}
