use dag::CycleDetected;
use dag::DagNode;
use dag::TopologicalSort;
use dag::DAG;

fn position(order: &[u32], node: u32) -> usize {
    order
        .iter()
        .position(|&n| n == node)
        .expect("node missing from the order")
}

#[test]
fn test_topological_sort_acyclic() {
    // 1: no sources; 2: source 1; 3: source 1; 4: sources 2 and 3
    let mut dag_acyclic = DAG::new();
    dag_acyclic.insert_unchecked(1, DagNode::new(vec![], 0));
    dag_acyclic.insert_unchecked(2, DagNode::new(vec![1], 0));
    dag_acyclic.insert_unchecked(3, DagNode::new(vec![1], 0));
    dag_acyclic.insert_unchecked(4, DagNode::new(vec![2, 3], 0));

    let sorted_option = dag_acyclic.sort();
    assert!(sorted_option.is_some(), "an acyclic graph must be sorted");
    let sorted = sorted_option.unwrap();

    // every edge must point from an earlier to a later position:
    // 1 before 2, 1 before 3, 2 before 4, 3 before 4
    let pos = |node: u32| position(&sorted, node);
    assert!(pos(1) < pos(2), "node 1 must come before 2");
    assert!(pos(1) < pos(3), "node 1 must come before 3");
    assert!(pos(2) < pos(4), "node 2 must come before 4");
    assert!(pos(3) < pos(4), "node 3 must come before 4");
}

#[test]
fn test_topological_sort_cyclic() {
    // 1: source 3; 2: source 1; 3: source 2 — the cycle 1 -> 2 -> 3 -> 1
    let mut dag_cyclic = DAG::new();
    dag_cyclic.insert_unchecked(1, DagNode::new(vec![3], 0));
    dag_cyclic.insert_unchecked(2, DagNode::new(vec![1], 0));
    dag_cyclic.insert_unchecked(3, DagNode::new(vec![2], 0));

    let sorted_option = dag_cyclic.sort();
    assert!(sorted_option.is_none(), "a graph with a cycle must yield None");
}

#[test]
fn checked_insertion_builds_diamond() {
    let mut graph = DAG::new();
    assert_eq!(graph.add_node(1, DagNode::new(vec![], "a")), Ok(None));
    assert_eq!(graph.add_node(2, DagNode::new(vec![1], "b")), Ok(None));
    assert_eq!(graph.add_node(3, DagNode::new(vec![1], "c")), Ok(None));
    assert_eq!(graph.add_node(4, DagNode::new(vec![2, 3], "d")), Ok(None));

    let sorted = graph.sort().expect("the diamond is acyclic");
    assert_eq!(sorted.len(), 4);
    let pos = |node: u32| position(&sorted, node);
    assert!(pos(1) < pos(2));
    assert!(pos(1) < pos(3));
    assert!(pos(2) < pos(4));
    assert!(pos(3) < pos(4));
    // the queue is seeded in ascending identifier order, so the diamond
    // comes out exactly as 1, 2, 3, 4
    assert_eq!(sorted, vec![1, 2, 3, 4]);
}

#[test]
fn closing_a_cycle_is_rejected_and_nothing_changes() {
    let mut graph = DAG::new();
    assert_eq!(graph.add_node(1, DagNode::new(vec![], 10)), Ok(None));
    assert_eq!(graph.add_node(2, DagNode::new(vec![1], 20)), Ok(None));
    assert_eq!(graph.add_node(3, DagNode::new(vec![2], 30)), Ok(None));

    // overwriting node 1 with source 3 would close 1 -> 2 -> 3 -> 1
    let rejected = graph.add_node(1, DagNode::new(vec![3], 11));
    assert_eq!(rejected, Err(CycleDetected));

    // the graph is exactly as before the failed call
    assert_eq!(graph.in_degree(1), Some(0));
    assert_eq!(graph.in_degree(2), Some(1));
    assert_eq!(graph.in_degree(3), Some(1));
    let sorted = graph.sort().expect("the chain is still acyclic");
    assert_eq!(sorted, vec![1, 2, 3]);
}

#[test]
fn self_cycle_is_rejected() {
    let mut graph = DAG::new();
    assert_eq!(graph.add_node(7, DagNode::new(vec![7], 0)), Err(CycleDetected));
    assert_eq!(graph.in_degree(7), None);
    assert_eq!(graph.sort(), Some(vec![]));
}

#[test]
fn dangling_predecessor_blocks_the_sort() {
    // 99 was never inserted, so node 5 can never reach in-degree zero
    let mut bypassed = DAG::new();
    bypassed.insert_unchecked(5, DagNode::new(vec![99], 0));
    assert_eq!(bypassed.sort(), None);

    // the checked insertion refuses such a node outright, because the
    // candidate graph is already unsortable
    let mut checked = DAG::new();
    assert_eq!(checked.add_node(5, DagNode::new(vec![99], 0)), Err(CycleDetected));
    assert_eq!(checked.sort(), Some(vec![]));
}

#[test]
fn duplicate_predecessor_entries_block_the_sort() {
    // a repeated entry is struck out only once per completed predecessor,
    // so [1, 1] never empties even though the graph has no cycle
    let mut graph = DAG::new();
    assert_eq!(graph.add_node(1, DagNode::new(vec![], 0)), Ok(None));
    assert_eq!(graph.add_node(2, DagNode::new(vec![1, 1], 0)), Err(CycleDetected));

    let mut bypassed = DAG::new();
    bypassed.insert_unchecked(1, DagNode::new(vec![], 0));
    bypassed.insert_unchecked(2, DagNode::new(vec![1, 1], 0));
    assert_eq!(bypassed.sort(), None);
}

#[test]
fn update_returns_the_previous_node() {
    let mut graph = DAG::new();
    assert_eq!(graph.add_node(1, DagNode::new(vec![], "old")), Ok(None));
    assert_eq!(graph.add_node(2, DagNode::new(vec![1], "dep")), Ok(None));

    let prev = graph.add_node(1, DagNode::new(vec![], "new"));
    assert_eq!(prev, Ok(Some(DagNode::new(vec![], "old"))));
    assert_eq!(graph.in_degree(1), Some(0));
    assert_eq!(graph.sort(), Some(vec![1, 2]));
}

#[test]
fn unchecked_insert_returns_the_previous_node() {
    let mut graph = DAG::new();
    assert_eq!(graph.insert_unchecked(3, DagNode::new(vec![], 1)), None);
    let prev = graph.insert_unchecked(3, DagNode::new(vec![9], 2));
    assert_eq!(prev, Some(DagNode::new(vec![], 1)));
    assert_eq!(graph.in_degree(3), Some(1));
}

#[test]
fn in_degree_matches_the_stored_node() {
    let mut graph = DAG::new();
    assert_eq!(graph.in_degree(1), None);

    let node = DagNode::new(vec![10, 11, 12], 0);
    assert_eq!(node.sources_len(), 3);
    assert_eq!(node.sources(), &vec![10, 11, 12]);
    graph.insert_unchecked(1, node);

    assert_eq!(graph.in_degree(1), Some(3));
    assert_eq!(graph.in_degree(10), None);
}

#[test]
fn node_accessors_expose_sources_and_value() {
    let node = DagNode::new(vec![4, 2], "payload");
    assert_eq!(node.sources(), &vec![4, 2]);
    assert_eq!(node.sources_len(), 2);
    assert_eq!(node.value(), &"payload");
    assert_eq!(node.clone(), node);
}

#[test]
fn empty_graph_sorts_to_an_empty_order() {
    let graph: DAG<u8> = DAG::new();
    assert_eq!(graph.sort(), Some(vec![]));
    assert_eq!(graph.in_degree(0), None);
}

#[test]
fn order_is_ascending_among_independent_nodes() {
    let mut graph = DAG::new();
    assert_eq!(graph.add_node(30, DagNode::new(vec![], 0)), Ok(None));
    assert_eq!(graph.add_node(10, DagNode::new(vec![], 0)), Ok(None));
    assert_eq!(graph.add_node(20, DagNode::new(vec![], 0)), Ok(None));
    // the queue is seeded in ascending key order of the ordered mapping
    assert_eq!(graph.sort(), Some(vec![10, 20, 30]));
}
