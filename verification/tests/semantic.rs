use tpt_aura::codec::{Reader, Writer};
use tpt_aura::error::AuraError;
use tpt_aura::semantic::{compress_bitmask, decompress_bitmask, ConceptEdge, ConceptNode, SemanticDAG};

fn edge(source: u32, target: u32, rel: &str) -> ConceptEdge {
    ConceptEdge { source, target, relationship: rel.to_string() }
}

#[test]
fn bitmask_round_trip() {
    let mask: Vec<u8> = vec![1, 1, 1, 0, 0, 1, 0, 0, 0, 0];
    let rle = compress_bitmask(&mask);
    let back = decompress_bitmask(&rle).unwrap();
    assert_eq!(mask, back);
    // RLE should be shorter than the raw mask for long, repetitive data.
    let long: Vec<u8> = std::iter::repeat(1u8).take(1000).collect();
    assert!(compress_bitmask(&long).len() <= long.len());
}

#[test]
fn no_cycle_is_topo_sorted() {
    let mut dag = SemanticDAG::new();
    dag.add_node(ConceptNode::from_bitmask(1, "Sky", 0.9f32.to_bits(), &[]));
    dag.add_node(ConceptNode::from_bitmask(2, "Person", 0.8f32.to_bits(), &[]));
    dag.add_edge(edge(2, 1, "is_in_front_of"));
    assert!(!dag.has_cycle());
    assert!(dag.topo_sort().is_ok());
}

#[test]
fn cycle_is_detected() {
    let mut dag = SemanticDAG::new();
    dag.add_node(ConceptNode::from_bitmask(1, "A", 1.0f32.to_bits(), &[]));
    dag.add_node(ConceptNode::from_bitmask(2, "B", 1.0f32.to_bits(), &[]));
    dag.add_edge(edge(1, 2, "x"));
    dag.add_edge(edge(2, 1, "x"));
    assert!(dag.has_cycle());
    assert!(matches!(dag.topo_sort(), Err(AuraError::CycleDetected)));
}

#[test]
fn dag_round_trip() {
    let mut dag = SemanticDAG::new();
    dag.add_node(ConceptNode::from_bitmask(1, "Sky", 0.99f32.to_bits(), &[1, 1, 0, 0, 1, 1, 0, 0]));
    dag.add_node(ConceptNode::from_bitmask(2, "Person", 0.9f32.to_bits(), &[0, 0, 1, 1, 0, 0, 1, 1]));
    dag.add_edge(edge(2, 1, "is_in_front_of"));
    let mut w = Writer::new();
    dag.encode(&mut w);
    let bytes = w.into_inner();
    let mut r = Reader::new(&bytes);
    let back = SemanticDAG::decode(&mut r).unwrap();
    assert_eq!(back, dag);
    // Bitmasks survive the round trip too.
    assert_eq!(back.nodes[0].bitmask().unwrap()[0], 1);
}

#[test]
fn compress_bitmask_exact_bytes() {
    assert_eq!(compress_bitmask(&[]), Vec::<u8>::new());
    assert_eq!(
        compress_bitmask(&[1, 1, 0]),
        vec![1, 2, 0, 0, 0, 0, 1, 0, 0, 0]
    );
    // Non-zero values count as 1.
    assert_eq!(compress_bitmask(&[7, 7]), vec![1, 2, 0, 0, 0]);
    assert_eq!(decompress_bitmask(&[1, 2, 0, 0, 0]).unwrap(), vec![1, 1]);
}

#[test]
fn decompress_truncated_rle_fails() {
    assert_eq!(decompress_bitmask(&[1, 2, 0]), Err(AuraError::UnexpectedEof));
    assert_eq!(decompress_bitmask(&[5, 3, 0, 0, 0]).unwrap(), vec![1, 1, 1]);
}

#[test]
fn topo_sort_orders_sources_first() {
    let mut dag = SemanticDAG::new();
    dag.add_node(ConceptNode::from_bitmask(3, "C", 0, &[]));
    dag.add_node(ConceptNode::from_bitmask(1, "A", 0, &[]));
    dag.add_node(ConceptNode::from_bitmask(2, "B", 0, &[]));
    dag.add_edge(edge(1, 2, "x"));
    dag.add_edge(edge(2, 3, "x"));
    assert_eq!(dag.topo_sort().unwrap(), vec![1, 2, 3]);
}

#[test]
fn edges_between_nodes_still_order() {
    // Only edges between node ids count: 2 -> 1 orders 2 first, the edge to
    // the missing 9 is ignored.
    let mut dag = SemanticDAG::new();
    dag.add_node(ConceptNode::from_bitmask(1, "A", 0, &[]));
    dag.add_node(ConceptNode::from_bitmask(2, "B", 0, &[]));
    dag.add_edge(edge(2, 1, "x"));
    dag.add_edge(edge(1, 9, "x"));
    assert_eq!(dag.topo_sort(), Ok(vec![2, 1]));
}

#[test]
fn self_loop_is_a_cycle() {
    let mut dag = SemanticDAG::new();
    dag.add_node(ConceptNode::from_bitmask(1, "A", 0, &[]));
    dag.add_edge(edge(1, 1, "x"));
    assert!(dag.has_cycle());
    assert_eq!(SemanticDAG::new().topo_sort().unwrap(), Vec::<u32>::new());
}

#[test]
fn node_bitmask_accessor() {
    let n = ConceptNode::from_bitmask(4, "L", 0, &[0, 0, 1]);
    assert_eq!(n.bitmask().unwrap(), vec![0, 0, 1]);
    assert_eq!(n.label, "L");
}

#[test]
fn edge_to_missing_node_is_no_cycle() {
    let mut dag = SemanticDAG::new();
    dag.add_node(ConceptNode::from_bitmask(1, "A", 1.0f32.to_bits(), &[]));
    dag.add_edge(edge(1, 99, "x"));
    assert!(!dag.has_cycle());
    assert_eq!(dag.topo_sort().unwrap(), vec![1]);
    let mut dag2 = SemanticDAG::new();
    dag2.add_node(ConceptNode::from_bitmask(1, "A", 1.0f32.to_bits(), &[]));
    dag2.add_edge(edge(99, 1, "x"));
    assert!(!dag2.has_cycle());
}
