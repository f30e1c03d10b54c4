use audio_graph_bsd::{FlushError, GraphError};

#[test]
fn cycle_detected_display_lists_nodes() {
    let e = GraphError::CycleDetected { nodes: vec![2, 3] };
    assert_eq!(e.to_string(), "cycle detected in graph; unresolved nodes: [2, 3]");
}

#[test]
fn port_not_found_display() {
    let e = GraphError::PortNotFound { node: 1, port: 2 };
    assert_eq!(e.to_string(), "port 2 not found on node 1");
}

#[test]
fn port_direction_mismatch_display() {
    let e = GraphError::PortDirectionMismatch { from: (0, 1), to: (2, 0) };
    assert!(e.to_string().contains("Output -> Input"));
    assert_eq!(
        e.to_string(),
        "port direction mismatch: (0, 1) -> (2, 0) (expected Output -> Input)"
    );
}

#[test]
fn port_incompatible_display() {
    let e = GraphError::PortIncompatible { from: (0, 0), to: (1, 0) };
    assert!(e.to_string().contains("incompatible"));
    assert_eq!(
        e.to_string(),
        "ports incompatible: (0, 0) -> (1, 0) (channels or sample format differ)"
    );
}

#[test]
fn not_compiled_display() {
    let e = GraphError::NotCompiled;
    assert_eq!(e.to_string(), "graph is not compiled; call Graph::compile first");
}

#[test]
fn already_compiled_display() {
    let e = GraphError::AlreadyCompiled;
    assert_eq!(e.to_string(), "graph is already compiled");
}

#[test]
fn node_not_found_display() {
    let e = GraphError::NodeNotFound(5);
    assert_eq!(e.to_string(), "node 5 not found");
}

#[test]
fn clone_and_eq_hold() {
    let a = GraphError::NodeNotFound(3);
    assert_eq!(a.clone(), a);
    assert_ne!(GraphError::NodeNotFound(1), GraphError::NotCompiled);
}

#[test]
fn every_error_clones_to_an_equal_one() {
    let errors = [
        GraphError::CycleDetected { nodes: vec![4, 10, 123] },
        GraphError::PortNotFound { node: 1, port: 2 },
        GraphError::PortDirectionMismatch { from: (0, 1), to: (2, 3) },
        GraphError::PortIncompatible { from: (0, 1), to: (2, 3) },
        GraphError::NotCompiled,
        GraphError::AlreadyCompiled,
        GraphError::NodeNotFound(7),
    ];
    for e in &errors {
        assert_eq!(&e.clone(), e);
    }
}

#[test]
fn cycle_of_no_nodes_and_large_ids_are_written_out() {
    assert_eq!(
        GraphError::CycleDetected { nodes: vec![] }.to_string(),
        "cycle detected in graph; unresolved nodes: []"
    );
    assert_eq!(
        GraphError::CycleDetected { nodes: vec![0, 10, usize::MAX] }.to_string(),
        format!("cycle detected in graph; unresolved nodes: [0, 10, {}]", usize::MAX)
    );
}

#[test]
fn flush_error_display() {
    assert_eq!(FlushError::RingFull(3).to_string(), "ring full (xrun): 3 frame(s) dropped");
    assert_eq!(FlushError::NotFlushable(7).to_string(), "node 7 is not a flushable sink");
    assert_eq!(FlushError::NodeNotFound(2).to_string(), "node 2 not found");
}

#[test]
fn flush_error_clone_eq() {
    let e = FlushError::RingFull(1);
    assert_eq!(e.clone(), e);
    assert_ne!(FlushError::RingFull(1), FlushError::NodeNotFound(1));
}
