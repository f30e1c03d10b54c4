use audio_graph_bsd::{topological_sort, Edge};

fn edge(from: usize, to: usize) -> Edge {
    Edge { from: (from, 0), to: (to, 0) }
}

fn is_valid_topo_order(order: &[usize], num_nodes: usize, edges: &[Edge]) -> bool {
    if order.len() != num_nodes || (0..num_nodes).any(|n| !order.contains(&n)) {
        return false;
    }
    edges.iter().all(|e| {
        let from = order.iter().position(|&x| x == e.from.0);
        let to = order.iter().position(|&x| x == e.to.0);
        from < to
    })
}

#[test]
fn empty_graph_is_ok() {
    let order = topological_sort(0, &[]).unwrap();
    assert!(order.is_empty());
}

#[test]
fn no_edges_preserves_all_nodes() {
    let order = topological_sort(3, &[]).unwrap();
    assert_eq!(order.len(), 3);
    assert_eq!(order, vec![0, 1, 2]);
}

#[test]
fn linear_chain_sorts_in_dependency_order() {
    let order = topological_sort(3, &[edge(0, 1), edge(1, 2)]).unwrap();
    assert_eq!(order, vec![0, 1, 2]);
}

#[test]
fn diamond_dag_respects_dependencies() {
    let edges = [edge(0, 1), edge(0, 2), edge(1, 3), edge(2, 3)];
    let order = topological_sort(4, &edges).unwrap();
    assert_eq!(order[0], 0);
    assert_eq!(order[3], 3);
    assert!(order[1] == 1 || order[1] == 2);
    assert!(order[2] == 1 || order[2] == 2);
}

#[test]
fn disconnected_nodes_are_all_included() {
    let order = topological_sort(4, &[edge(0, 1)]).unwrap();
    assert_eq!(order.len(), 4);
    let pos0 = order.iter().position(|&n| n == 0).unwrap();
    let pos1 = order.iter().position(|&n| n == 1).unwrap();
    assert!(pos0 < pos1);
    assert!(order.contains(&2));
    assert!(order.contains(&3));
}

#[test]
fn self_loop_is_a_cycle() {
    let remaining = topological_sort(1, &[edge(0, 0)]).expect_err("self-loop must be a cycle");
    assert_eq!(remaining, vec![0]);
}

#[test]
fn two_node_cycle_is_detected() {
    let remaining = topological_sort(2, &[edge(0, 1), edge(1, 0)])
        .expect_err("two-node cycle must be detected");
    assert_eq!(remaining.len(), 2);
}

#[test]
fn edges_beyond_num_nodes_are_skipped() {
    let order = topological_sort(2, &[edge(0, 5)]).unwrap();
    assert_eq!(order.len(), 2);
}

#[test]
fn edges_from_beyond_num_nodes_are_skipped() {
    assert_eq!(topological_sort(2, &[edge(5, 0)]), Ok(vec![0, 1]));
    assert_eq!(topological_sort(2, &[edge(5, 5), edge(1, 0)]), Ok(vec![1, 0]));
}

#[test]
fn nodes_come_in_the_order_in_which_they_are_released() {
    // 3 and 4 have no predecessors; 3 releases 1 before 0, and 2 waits for 4.
    let edges = [edge(3, 1), edge(3, 0), edge(0, 2), edge(4, 2)];
    assert_eq!(topological_sort(5, &edges), Ok(vec![3, 4, 1, 0, 2]));
}

#[test]
fn parallel_edges_count_once_each() {
    let edges = [edge(1, 0), edge(1, 0), edge(1, 0)];
    assert_eq!(topological_sort(2, &edges), Ok(vec![1, 0]));
}

#[test]
fn nodes_behind_a_cycle_are_left_over_in_ascending_order() {
    let edges = [edge(4, 3), edge(3, 4), edge(3, 1), edge(0, 2)];
    assert_eq!(topological_sort(5, &edges), Err(vec![1, 3, 4]));
}

#[test]
fn low_to_high_edges_always_sort() {
    // A fixed stream of pseudo-random edges that only lead from lower to higher ids.
    let mut state: u32 = 12345;
    for n in 2..=16usize {
        let mut edges = Vec::new();
        for _ in 0..30 {
            state = state.wrapping_mul(1_664_525).wrapping_add(1_013_904_223);
            let from = (state >> 16) as usize % (n - 1);
            state = state.wrapping_mul(1_664_525).wrapping_add(1_013_904_223);
            let to = from + 1 + (state >> 16) as usize % (n - from - 1);
            edges.push(edge(from, to));
        }
        let order = topological_sort(n, &edges).expect("acyclic graph must sort");
        assert!(is_valid_topo_order(&order, n, &edges), "order {order:?} for {edges:?}");
    }
}
