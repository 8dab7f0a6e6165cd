use rand::SeedableRng;
use rand::distr::SampleString;
use rand::distr::slice::Choose;
use rand::rngs::SmallRng;

use bidirected_graph::NodeIndex;
use bidirected_graph::graph::BidirectedAdjacencyArray;
use bidirected_graph::graph::BidirectedEdge;
use bidirected_graph::io::gfa1::GfaReadError;
use bidirected_graph::io::gfa1::PlainGfaEdgeData;
use bidirected_graph::io::gfa1::PlainGfaNodeData;
use bidirected_graph::io::gfa1::read_gfa1;
use bidirected_graph::io::gfa1::write_gfa1;

type GfaGraph = BidirectedAdjacencyArray<PlainGfaNodeData, PlainGfaEdgeData>;

fn expect_equal(expected: &GfaGraph, actual: &GfaGraph) {
    match expected.compare(actual) {
        Ok(()) => {}
        Err(error) => panic!("graphs differ: {:?}", error),
    }
}

fn node(name: &str, sequence: &str) -> PlainGfaNodeData {
    PlainGfaNodeData {
        name: name.to_string(),
        sequence: sequence.to_string(),
    }
}

fn gfa_edge(
    from: usize,
    from_forward: bool,
    to: usize,
    to_forward: bool,
    overlap: u16,
) -> BidirectedEdge<PlainGfaEdgeData> {
    BidirectedEdge {
        from: NodeIndex::new(from),
        from_forward,
        to: NodeIndex::new(to),
        to_forward,
        data: PlainGfaEdgeData { overlap },
    }
}

#[test]
fn test_write_read_triangle() {
    let nodes = vec![node("N0", "000"), node("N1", "111"), node("N2", "222")];
    let edges = vec![
        gfa_edge(0, true, 1, true, 0),
        gfa_edge(1, true, 2, true, 1),
        gfa_edge(2, true, 0, true, 2),
    ];

    let expected_graph = GfaGraph::new(nodes, edges);

    let written = write_gfa1(&expected_graph);
    let actual_gfa = written.trim();
    println!("GFA:\n{}", written);
    let actual_graph = read_gfa1(&written).unwrap();

    let expected_gfa = "H\tVN:Z:1.0\nS\tN0\t000\nS\tN1\t111\nS\tN2\t222\nL\tN0\t+\tN1\t+\t0M\nL\tN1\t+\tN2\t+\t1M\nL\tN2\t+\tN0\t+\t2M";

    expect_equal(&expected_graph, &actual_graph);
    assert_eq!(expected_gfa, actual_gfa);
}

#[test]
fn test_write_read_large() {
    let mut rng = SmallRng::seed_from_u64(0);
    let dna_characters = Choose::new(&['A', 'C', 'G', 'T']).unwrap();

    for _ in 0..1000 {
        let expected_graph = GfaGraph::generate_random_graph(
            10,
            100,
            |node_index: NodeIndex, seed: u64| {
                let mut node_rng = SmallRng::seed_from_u64(seed);
                PlainGfaNodeData {
                    name: format!("node{}", node_index.into_usize()),
                    sequence: dna_characters.sample_string(&mut node_rng, 10),
                }
            },
            |_seed: u64| PlainGfaEdgeData { overlap: 0 },
            &mut rng,
        )
        .unwrap();

        let written = write_gfa1(&expected_graph);
        let actual_graph = read_gfa1(&written).unwrap();

        expect_equal(&expected_graph, &actual_graph);
    }
}

#[test]
fn test_read_undefined_node_name() {
    let input = "H\tVN:Z:1.0\nS\tA\tAAA\nL\tA\t+\tB\t+\t0M\n";
    let error = read_gfa1(input).unwrap_err();
    assert!(matches!(error, GfaReadError::UnknownNodeName(name) if name == "B"));
}

#[test]
fn test_read_header_after_records() {
    let input = "S\tA\tAAA\nH\tVN:Z:1.0\n";
    let error = read_gfa1(input).unwrap_err();
    assert!(matches!(error, GfaReadError::WronglyPositionedHeader));
}

#[test]
fn test_read_s_line_missing_name() {
    let input = "S\n";
    let error = read_gfa1(input).unwrap_err();
    assert!(matches!(error, GfaReadError::MissingSequenceNameInSLine));
}

#[test]
fn test_read_l_line_too_short() {
    let input = "S\tA\tAAA\nL\tA\t+\n";
    let error = read_gfa1(input).unwrap_err();
    assert!(matches!(error, GfaReadError::LLineTooShort));
}

#[test]
fn test_read_invalid_sign() {
    let input = "S\tA\tAAA\nS\tB\tCCC\nL\tA\t*\tB\t+\t0M\n";
    let error = read_gfa1(input).unwrap_err();
    assert!(matches!(error, GfaReadError::UnknownGfaNodeSign(sign) if sign == "*"));
}

#[test]
fn test_read_overlap_forms() {
    // A missing overlap field defaults to zero; a malformed or out-of-range
    // numeral falls back to zero; trailing `M`s are stripped; a leading plus
    // sign is accepted.
    let input = "S\tA\tAAA\nS\tB\tCCC\nL\tA\t+\tB\t+\nL\tA\t+\tB\t-\t7M\nL\tA\t-\tB\t+\t12MM\nL\tA\t-\tB\t-\t+9M\nL\tB\t+\tA\t+\txyzM\nL\tB\t+\tA\t-\t99999M\nL\tB\t-\tA\t+\t65535M\n";
    let graph = read_gfa1(input).unwrap();
    assert_eq!(graph.edge_count(), 7);
    let overlaps: Vec<u16> = graph
        .iter_edges()
        .iter()
        .map(|e| graph.edge(*e).data().overlap)
        .collect();
    assert_eq!(overlaps, vec![0, 7, 12, 9, 0, 0, 65535]);
}

#[test]
fn test_read_skips_unknown_lines_and_duplicate_names_shadow() {
    // Unknown record types are skipped; a later node with the same name
    // shadows the earlier one for edge resolution.
    let input = "H\tVN:Z:1.0\n#\tcomment\nS\tA\tAAA\nS\tB\tCCC\nS\tA\tGGG\nL\tA\t+\tB\t+\t0M\n";
    let graph = read_gfa1(input).unwrap();
    assert_eq!(graph.node_count(), 3);
    assert_eq!(graph.edge_count(), 1);
    let view = graph.edge(bidirected_graph::EdgeIndex::new(0));
    // Node index 2 is the later definition of the duplicate name.
    assert_eq!(view.from().into_bidirected().into_usize(), 2);
    assert_eq!(view.to().into_bidirected().into_usize(), 1);
}

#[test]
fn test_compare_mismatches() {
    let base = GfaGraph::new(
        vec![node("A", "AAA"), node("B", "CCC")],
        vec![gfa_edge(0, true, 1, true, 5)],
    );

    let fewer_nodes = GfaGraph::new(vec![node("A", "AAA")], Vec::new());
    assert!(matches!(
        base.compare(&fewer_nodes),
        Err(bidirected_graph::compare::GraphComparisonError::NodeCountMismatch)
    ));

    let fewer_edges = GfaGraph::new(vec![node("A", "AAA"), node("B", "CCC")], Vec::new());
    assert!(matches!(
        base.compare(&fewer_edges),
        Err(bidirected_graph::compare::GraphComparisonError::EdgeCountMismatch)
    ));

    let other_node_data = GfaGraph::new(
        vec![node("A", "AAA"), node("X", "CCC")],
        vec![gfa_edge(0, true, 1, true, 5)],
    );
    assert!(matches!(
        base.compare(&other_node_data),
        Err(bidirected_graph::compare::GraphComparisonError::NodeDataMismatch(i)) if i.into_usize() == 1
    ));

    let other_edge_data = GfaGraph::new(
        vec![node("A", "AAA"), node("B", "CCC")],
        vec![gfa_edge(0, true, 1, true, 6)],
    );
    assert!(matches!(
        base.compare(&other_edge_data),
        Err(bidirected_graph::compare::GraphComparisonError::EdgeDataMismatch(e)) if e.into_usize() == 0
    ));

    let other_endpoints = GfaGraph::new(
        vec![node("A", "AAA"), node("B", "CCC")],
        vec![gfa_edge(1, true, 0, true, 5)],
    );
    assert!(matches!(
        base.compare(&other_endpoints),
        Err(bidirected_graph::compare::GraphComparisonError::EdgeEndpointMismatch(e)) if e.into_usize() == 0
    ));

    let same = GfaGraph::new(
        vec![node("A", "AAA"), node("B", "CCC")],
        vec![gfa_edge(0, true, 1, true, 5)],
    );
    assert!(base.compare(&same).is_ok());
}

#[test]
fn test_generate_random_graph_counts() {
    let mut rng = SmallRng::seed_from_u64(7);
    let graph = BidirectedAdjacencyArray::<u64, u16>::generate_random_graph(
        5,
        20,
        |node_index: NodeIndex, _seed: u64| node_index.into_usize() as u64,
        |_seed: u64| 0u16,
        &mut rng,
    )
    .unwrap();
    assert_eq!(graph.node_count(), 5);
    assert_eq!(graph.edge_count(), 20);
}
