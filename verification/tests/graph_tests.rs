use bidirected_graph::DirectedEdgeIndex;
use bidirected_graph::DirectedNodeIndex;
use bidirected_graph::EdgeIndex;
use bidirected_graph::NodeIndex;
use bidirected_graph::graph::BidirectedAdjacencyArray;
use bidirected_graph::graph::BidirectedEdge;

fn edge(from: usize, from_forward: bool, to: usize, to_forward: bool) -> BidirectedEdge<()> {
    BidirectedEdge {
        from: NodeIndex::new(from),
        from_forward,
        to: NodeIndex::new(to),
        to_forward,
        data: (),
    }
}

fn successor_targets(graph: &BidirectedAdjacencyArray<(), ()>, node: usize) -> Vec<usize> {
    graph
        .iter_outgoing_edges(DirectedNodeIndex::new(node))
        .iter()
        .map(|directed_edge| directed_edge.to().into_usize())
        .collect()
}

#[test]
fn test_empty_construction() {
    let graph = BidirectedAdjacencyArray::<(), ()>::new(Vec::new(), Vec::new());
    assert_eq!(graph.node_count(), 0);
    assert_eq!(graph.edge_count(), 0);
}

#[test]
fn test_single_node_no_edges_construction() {
    let nodes = vec![()];
    let edges = Vec::new();
    let graph = BidirectedAdjacencyArray::<(), ()>::new(nodes, edges);
    assert_eq!(graph.node_count(), 1);
    assert_eq!(graph.edge_count(), 0);
}

#[test]
fn test_path_construction() {
    let nodes = vec![(), (), ()];
    let edges = vec![edge(0, true, 1, true), edge(1, true, 2, true)];
    let graph = BidirectedAdjacencyArray::<(), ()>::new(nodes, edges);
    assert_eq!(graph.node_count(), 3);
    assert_eq!(graph.edge_count(), 2);

    assert_eq!(successor_targets(&graph, 0), vec![2]);
    assert_eq!(successor_targets(&graph, 1), Vec::<usize>::new());
    assert_eq!(successor_targets(&graph, 2), vec![4]);
    assert_eq!(successor_targets(&graph, 3), vec![1]);
    assert_eq!(successor_targets(&graph, 4), Vec::<usize>::new());
    assert_eq!(successor_targets(&graph, 5), vec![3]);
}

#[test]
fn test_iter_nodes_and_edges_ascending() {
    let nodes = vec![(), ()];
    let edges = vec![edge(0, true, 1, true)];
    let graph = BidirectedAdjacencyArray::<(), ()>::new(nodes, edges);
    let node_indices: Vec<usize> =
        graph.iter_nodes().iter().map(|n| n.into_usize()).collect();
    assert_eq!(node_indices, vec![0, 1]);
    let edge_indices: Vec<usize> =
        graph.iter_edges().iter().map(|e| e.into_usize()).collect();
    assert_eq!(edge_indices, vec![0]);
}

#[test]
fn test_node_data_lookup() {
    let nodes = vec![10u32, 20u32, 30u32];
    let graph = BidirectedAdjacencyArray::<u32, ()>::new(nodes, Vec::new());
    assert_eq!(*graph.node_data(NodeIndex::new(0)), 10);
    assert_eq!(*graph.node_data(NodeIndex::new(2)), 30);
}

#[test]
fn test_edge_view_general_case() {
    // A general edge between distinct nodes: the reported endpoints are the
    // encoded sides given at construction.
    let nodes = vec![(), ()];
    let edges = vec![edge(0, true, 1, false)];
    let graph = BidirectedAdjacencyArray::<(), ()>::new(nodes, edges);
    let view = graph.edge(EdgeIndex::new(0));
    assert_eq!(view.from().into_usize(), 0);
    assert_eq!(view.to().into_usize(), 3);
}

#[test]
fn test_edge_view_same_orientation_self_loop() {
    // Entering and leaving the same side twice: both reported endpoints are
    // the forward side of the node.
    let nodes = vec![()];
    let edges = vec![edge(0, true, 0, true)];
    let graph = BidirectedAdjacencyArray::<(), ()>::new(nodes, edges);
    let view = graph.edge(EdgeIndex::new(0));
    assert_eq!(view.from().into_usize(), 0);
    assert_eq!(view.to().into_usize(), 0);
    // The two stored destinations are mutual inverses in this case.
    let forward_to = graph
        .iter_outgoing_edges(DirectedNodeIndex::new(0))
        .iter()
        .map(|d| d.to().into_usize())
        .collect::<Vec<_>>();
    assert_eq!(forward_to, vec![0]);
}

#[test]
fn test_edge_view_opposite_orientation_self_loop() {
    let nodes = vec![()];
    let edges = vec![edge(0, true, 0, false)];
    let graph = BidirectedAdjacencyArray::<(), ()>::new(nodes, edges);
    let view = graph.edge(EdgeIndex::new(0));
    assert_eq!(view.from().into_usize(), 0);
    assert_eq!(view.to().into_usize(), 1);
}

#[test]
fn test_directed_edge_data_resolution() {
    let nodes = vec![(), ()];
    let edges = vec![edge(0, true, 1, true)];
    let graph = BidirectedAdjacencyArray::<(), ()>::new(nodes, edges);
    let view = graph.edge(EdgeIndex::new(0));
    let forward = graph.directed_edge_data(view.forward());
    assert!(forward.is_forward());
    assert_eq!(forward.edge().into_usize(), 0);
    let reverse = graph.directed_edge_data(view.reverse());
    assert!(!reverse.is_forward());
    assert_eq!(reverse.edge().into_usize(), 0);
    assert_eq!(
        graph.directed_edge_into_bidirected(view.forward()).into_usize(),
        0
    );
    assert_eq!(
        graph.directed_edge_into_bidirected(view.reverse()).into_usize(),
        0
    );
}

#[test]
fn test_incident_edges_general() {
    let nodes = vec![(), (), ()];
    let edges = vec![edge(0, true, 1, true), edge(1, true, 2, true)];
    let graph = BidirectedAdjacencyArray::<(), ()>::new(nodes, edges);
    let incident0: Vec<usize> = graph
        .iter_incident_edges(NodeIndex::new(0))
        .iter()
        .map(|e| e.into_usize())
        .collect();
    assert_eq!(incident0, vec![0]);
    let mut incident1: Vec<usize> = graph
        .iter_incident_edges(NodeIndex::new(1))
        .iter()
        .map(|e| e.into_usize())
        .collect();
    incident1.sort();
    assert_eq!(incident1, vec![0, 1]);
}

#[test]
fn test_incident_edges_self_loop_reported_once() {
    let nodes = vec![()];
    let edges = vec![edge(0, true, 0, true)];
    let graph = BidirectedAdjacencyArray::<(), ()>::new(nodes, edges);
    let incident: Vec<usize> = graph
        .iter_incident_edges(NodeIndex::new(0))
        .iter()
        .map(|e| e.into_usize())
        .collect();
    assert_eq!(incident, vec![0]);
}
