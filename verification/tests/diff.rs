use tpt_aura::bootstrap::Bootstrap;
use tpt_aura::container::{open, AuraBuilder, AuraFile, LuminanceChromaRecord, SceneChild, SceneRecord};
use tpt_aura::crypto::sha3_256;
use tpt_aura::diff::{diff, DiffReport, RecordTypeDiff};
use tpt_aura::provenance::{GenesisBlock, OpType, ProvenanceLedger, SigningKey};
use tpt_aura::semantic::{ConceptEdge, ConceptNode, SemanticDAG};

fn key() -> SigningKey {
    SigningKey::from_bytes(&[7u8; 32])
}

/// Two confidences differ when they are more than `f32::EPSILON` apart.
fn confidence_differs(a: u32, b: u32) -> bool {
    (f32::from_bits(a) - f32::from_bits(b)).abs() > f32::EPSILON
}

fn diff_files(a: &AuraFile, b: &AuraFile) -> DiffReport {
    diff(a, b, confidence_differs)
}

fn file_with_scene(dag: SemanticDAG, ledger_entries: usize, scene: SceneRecord) -> AuraFile {
    let k = key();
    let h = sha3_256(b"x");
    let genesis = GenesisBlock::sign(&k, h, [1u8; 16], 0);
    let mut ledger = ProvenanceLedger::new(&k, h);
    for _ in 0..ledger_entries {
        ledger.append(OpType::Other, "test", &k).unwrap();
    }
    let bytes = AuraBuilder::new(Bootstrap::with_default_wasm(), genesis, scene, dag, ledger)
        .build()
        .unwrap();
    open(&bytes).unwrap()
}

fn file_with(dag: SemanticDAG, ledger_entries: usize) -> AuraFile {
    file_with_scene(dag, ledger_entries, SceneRecord::new())
}

fn node(id: u32, label: &str, conf: f32) -> ConceptNode {
    ConceptNode::from_bitmask(id, label, conf.to_bits(), &[])
}

#[test]
fn detects_added_node() {
    let mut a = SemanticDAG::new();
    a.add_node(node(1, "Sky", 0.9));
    let mut b = SemanticDAG::new();
    b.add_node(node(1, "Sky", 0.9));
    b.add_node(node(2, "Ground", 0.8));

    let r = diff_files(&file_with(a, 0), &file_with(b, 0));
    assert_eq!(r.dag.nodes_added, vec![(2, "Ground".to_string())]);
    assert!(r.dag.nodes_removed.is_empty());
    assert!(r.dag.nodes_changed.is_empty());
}

#[test]
fn detects_removed_node() {
    let mut a = SemanticDAG::new();
    a.add_node(node(1, "Sky", 0.9));
    a.add_node(node(2, "Ground", 0.8));
    let b = SemanticDAG::new();

    let r = diff_files(&file_with(a, 0), &file_with(b, 0));
    assert_eq!(r.dag.nodes_removed, vec![(1, "Sky".to_string()), (2, "Ground".to_string())]);
}

#[test]
fn detects_confidence_change() {
    let mut a = SemanticDAG::new();
    a.add_node(node(1, "Sky", 0.5));
    let mut b = SemanticDAG::new();
    b.add_node(node(1, "Sky", 0.9));

    let r = diff_files(&file_with(a, 0), &file_with(b, 0));
    assert_eq!(r.dag.nodes_changed.len(), 1);
    assert!((f32::from_bits(r.dag.nodes_changed[0].new_confidence_bits) - 0.9).abs() < 1e-6);
}

#[test]
fn detects_ledger_additions() {
    let r = diff_files(&file_with(SemanticDAG::new(), 0), &file_with(SemanticDAG::new(), 2));
    assert_eq!(r.ledger.entries_added, 2);
    assert_eq!(r.ledger.added_ops, vec!["Other".to_string(), "Other".to_string()]);
}

#[test]
fn identical_files_have_empty_diff() {
    let r = diff_files(&file_with(SemanticDAG::new(), 1), &file_with(SemanticDAG::new(), 1));
    assert!(r.dag.nodes_added.is_empty());
    assert!(r.dag.nodes_removed.is_empty());
    assert!(r.dag.nodes_changed.is_empty());
    assert!(r.records.by_type.is_empty());
    assert_eq!(r.ledger.entries_added, 0);
    assert!(!r.bootstrap_changed);
}

#[test]
fn tiny_confidence_change_is_ignored_but_label_change_is_not() {
    let mut a = SemanticDAG::new();
    a.add_node(node(1, "Sky", 0.5));
    a.add_node(node(2, "Tree", 0.5));
    let mut b = SemanticDAG::new();
    b.add_node(node(1, "Sky", f32::from_bits(0.5f32.to_bits() + 1)));
    b.add_node(node(2, "Bush", 0.5));
    let r = diff_files(&file_with(a, 0), &file_with(b, 0));
    assert_eq!(r.dag.nodes_changed.len(), 1);
    assert_eq!(r.dag.nodes_changed[0].id, 2);
    assert_eq!(r.dag.nodes_changed[0].label, "Bush");
}

#[test]
fn later_node_with_same_id_wins_and_ids_come_sorted() {
    let mut a = SemanticDAG::new();
    a.add_node(node(5, "Old", 0.5));
    let mut b = SemanticDAG::new();
    b.add_node(node(9, "Nine", 0.5));
    b.add_node(node(3, "First", 0.5));
    b.add_node(node(3, "Second", 0.5));
    let r = diff_files(&file_with(a, 0), &file_with(b, 0));
    assert_eq!(r.dag.nodes_added, vec![(3, "Second".to_string()), (9, "Nine".to_string())]);
    assert_eq!(r.dag.nodes_removed, vec![(5, "Old".to_string())]);
}

#[test]
fn edge_differences_are_sets() {
    let e = |s: u32, t: u32, r: &str| ConceptEdge { source: s, target: t, relationship: r.to_string() };
    let mut a = SemanticDAG::new();
    a.add_edge(e(1, 2, "x"));
    a.add_edge(e(1, 2, "x"));
    a.add_edge(e(2, 3, "y"));
    let mut b = SemanticDAG::new();
    b.add_edge(e(2, 3, "y"));
    b.add_edge(e(3, 4, "z"));
    b.add_edge(e(3, 4, "z"));
    let r = diff_files(&file_with(a, 0), &file_with(b, 0));
    assert_eq!(r.dag.edges_added, vec![(3, 4, "z".to_string())]);
    assert_eq!(r.dag.edges_removed, vec![(1, 2, "x".to_string())]);
}

#[test]
fn record_layout_and_ledger_removals() {
    let mut scene = SceneRecord::new();
    for _ in 0..2 {
        scene.push(SceneChild::LuminanceChroma(LuminanceChromaRecord {
            width: 0,
            height: 0,
            depth: 8,
            sampling: 1,
            data: vec![],
        }));
    }
    let a = file_with_scene(SemanticDAG::new(), 3, scene);
    let b = file_with(SemanticDAG::new(), 1);
    let r = diff_files(&a, &b);
    assert_eq!(r.records.by_type, vec![RecordTypeDiff { type_tag: 0x10, a: 2, b: 0 }]);
    // A's three entries are distinct; B shares its first one.
    assert_eq!(r.ledger.entries_removed, 2);
    assert_eq!(r.ledger.entries_added, 0);
    assert!(r.ledger.added_ops.is_empty());
    assert_eq!(r.version_a, (1, 0));
    assert_eq!(r.version_b, (1, 0));
}

fn file_with_software(software: &str) -> AuraFile {
    let k = key();
    let h = sha3_256(b"x");
    let genesis = GenesisBlock::sign(&k, h, [1u8; 16], 0);
    let mut ledger = ProvenanceLedger::new(&k, h);
    ledger.append(OpType::Crop, software, &k).unwrap();
    let bytes = AuraBuilder::new(
        Bootstrap::with_default_wasm(),
        genesis,
        SceneRecord::new(),
        SemanticDAG::new(),
        ledger,
    )
    .build()
    .unwrap();
    open(&bytes).unwrap()
}

#[test]
fn replaced_ledger_entry_counts_as_added() {
    let a = file_with_software("alpha");
    let b = file_with_software("beta");
    let r = diff_files(&a, &b);
    assert_eq!(r.ledger.entries_added, 1);
    assert_eq!(r.ledger.added_ops, vec!["Crop".to_string()]);
    assert_eq!(r.ledger.entries_removed, 1);
}
