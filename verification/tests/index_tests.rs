use bidirected_graph::DirectedNodeIndex;
use bidirected_graph::EdgeIndex;
use bidirected_graph::NodeIndex;
use bidirected_graph::OptionalEdgeIndex;

#[test]
fn test_directed_node_encoding() {
    let forward = DirectedNodeIndex::from_bidirected(NodeIndex::new(3), true);
    let reverse = DirectedNodeIndex::from_bidirected(NodeIndex::new(3), false);
    assert_eq!(forward.into_usize(), 6);
    assert_eq!(reverse.into_usize(), 7);
    assert!(forward.is_forward());
    assert!(!forward.is_reverse());
    assert!(reverse.is_reverse());
    assert!(!reverse.is_forward());
    assert_eq!(forward.into_bidirected().into_usize(), 3);
    assert_eq!(reverse.into_bidirected().into_usize(), 3);
}

#[test]
fn test_invert_is_involutive_and_fixed_point_free() {
    for value in 0..20usize {
        let index = DirectedNodeIndex::new(value);
        let inverted = index.invert();
        assert_ne!(inverted.into_usize(), value);
        assert_eq!(inverted.invert().into_usize(), value);
    }
    assert_eq!(DirectedNodeIndex::new(6).invert().into_usize(), 7);
    assert_eq!(DirectedNodeIndex::new(7).invert().into_usize(), 6);
}

#[test]
fn test_optional_edge_index_round_trip() {
    let present = OptionalEdgeIndex::new_some(EdgeIndex::new(42));
    assert!(present.is_some());
    assert!(!present.is_none());
    assert_eq!(present.into_option().unwrap().into_usize(), 42);

    let absent = OptionalEdgeIndex::new_none();
    assert!(absent.is_none());
    assert!(!absent.is_some());
    assert!(absent.into_option().is_none());
}
