//! The Semantic Directed Acyclic Graph (DAG).
//!
//! A [`SemanticDAG`] embeds a concept graph directly in the file: each
//! [`ConceptNode`] carries a label, a confidence, and a run-length-encoded
//! bitmask mapping the concept onto the pixel grid. [`ConceptEdge`]s describe
//! spatial relationships between concepts. The module provides Kahn's
//! algorithm for cycle detection and RLE compression for the bitmasks.
//!
//! A confidence is an IEEE-754 single-precision number; the library keeps it
//! as its 32-bit pattern (`f32::to_bits`), which is also exactly what the
//! binary format stores.
use crate::codec::{
    enc_bytes, enc_list, enc_str, has_at, le_u32, lemma_has_at_split, lemma_has_at_split3,
    lemma_list_round_trip, lemma_sp_bytes, lemma_sp_list_err, lemma_sp_str, lemma_sp_u32, lemma_sp_u8,
    decodes_back, sp_bytes, sp_list, sp_str, sp_u32, sp_u8, Reader, Writer,
};
use crate::error::AuraError;
use vstd::prelude::*;
use vstd::utf8::*;

verus! {

broadcast use vstd::utf8::encode_utf8_decode_utf8, vstd::utf8::encode_utf8_valid_utf8;

// ---------------------------------------------------------------------------
// Nodes and edges
// ---------------------------------------------------------------------------

/// A single concept in the semantic graph (e.g. "Sky", "Person").
#[derive(Debug, Clone, PartialEq, Eq)]
pub struct ConceptNode {
    /// Stable node identifier (used by edges).
    pub id: u32,
    /// Human-readable label.
    pub label: String,
    /// Model confidence in `[0.0, 1.0]`, as the bit pattern of an `f32`.
    pub confidence_bits: u32,
    /// Run-length-encoded bitmask (see [`compress_bitmask`]) aligned to the
    /// luminance/spatial record it annotates.
    pub bitmask_rle: Vec<u8>,
}

/// The abstract value of a [`ConceptNode`].
pub struct NodeView {
    pub id: u32,
    pub label: Seq<char>,
    pub confidence_bits: u32,
    pub bitmask_rle: Seq<u8>,
}

impl View for ConceptNode {
    type V = NodeView;

    open spec fn view(&self) -> NodeView {
        NodeView {
            id: self.id,
            label: self.label@,
            confidence_bits: self.confidence_bits,
            bitmask_rle: self.bitmask_rle@,
        }
    }
}

/// A directed relationship between two concept nodes (e.g. `Person -> Car`).
#[derive(Debug, Clone, PartialEq, Eq)]
pub struct ConceptEdge {
    /// Source node id.
    pub source: u32,
    /// Target node id.
    pub target: u32,
    /// Relationship label, e.g. `"is_in_front_of"`.
    pub relationship: String,
}

/// The abstract value of a [`ConceptEdge`].
pub struct EdgeView {
    pub source: u32,
    pub target: u32,
    pub relationship: Seq<char>,
}

impl View for ConceptEdge {
    type V = EdgeView;

    open spec fn view(&self) -> EdgeView {
        EdgeView { source: self.source, target: self.target, relationship: self.relationship@ }
    }
}

/// A semantic graph of concepts and their spatial relationships.
#[derive(Debug, Clone, PartialEq, Eq)]
pub struct SemanticDAG {
    /// Concept nodes.
    pub nodes: Vec<ConceptNode>,
    /// Directed edges between node ids.
    pub edges: Vec<ConceptEdge>,
}

/// The abstract value of a [`SemanticDAG`].
pub struct DagView {
    pub nodes: Seq<NodeView>,
    pub edges: Seq<EdgeView>,
}

impl View for SemanticDAG {
    type V = DagView;

    open spec fn view(&self) -> DagView {
        DagView {
            nodes: self.nodes@.map_values(|n: ConceptNode| n@),
            edges: self.edges@.map_values(|e: ConceptEdge| e@),
        }
    }
}

// ---------------------------------------------------------------------------
// Encoding
// ---------------------------------------------------------------------------

/// Serialized form of a concept node.
pub open spec fn enc_node(n: NodeView) -> Seq<u8> {
    le_u32(n.id) + enc_str(n.label) + le_u32(n.confidence_bits) + enc_bytes(n.bitmask_rle)
}

/// Parse a concept node at `p`.
pub open spec fn sp_node(d: Seq<u8>, p: int) -> Result<(NodeView, int), (AuraError, int)> {
    match sp_u32(d, p) {
        Err(e) => Err(e),
        Ok((id, p1)) => match sp_str(d, p1) {
            Err(e) => Err(e),
            Ok((label, p2)) => match sp_u32(d, p2) {
                Err(e) => Err(e),
                Ok((c, p3)) => match sp_bytes(d, p3) {
                    Err(e) => Err(e),
                    Ok((rle, p4)) => Ok(
                        (NodeView { id, label, confidence_bits: c, bitmask_rle: rle }, p4),
                    ),
                },
            },
        },
    }
}

/// The label and the bitmask of a node fit their `u32` length prefixes.
pub open spec fn node_fits(n: NodeView) -> bool {
    &&& encode_utf8(n.label).len() <= u32::MAX
    &&& n.bitmask_rle.len() <= u32::MAX
}

/// Serialized form of a concept edge.
pub open spec fn enc_edge(e: EdgeView) -> Seq<u8> {
    le_u32(e.source) + le_u32(e.target) + enc_str(e.relationship)
}

/// Parse a concept edge at `p`.
pub open spec fn sp_edge(d: Seq<u8>, p: int) -> Result<(EdgeView, int), (AuraError, int)> {
    match sp_u32(d, p) {
        Err(e) => Err(e),
        Ok((s, p1)) => match sp_u32(d, p1) {
            Err(e) => Err(e),
            Ok((t, p2)) => match sp_str(d, p2) {
                Err(e) => Err(e),
                Ok((rel, p3)) => Ok((EdgeView { source: s, target: t, relationship: rel }, p3)),
            },
        },
    }
}

/// The relationship of an edge fits its `u32` length prefix.
pub open spec fn edge_fits(e: EdgeView) -> bool {
    encode_utf8(e.relationship).len() <= u32::MAX
}

/// [`enc_node`] as a value.
pub open spec fn node_enc() -> spec_fn(NodeView) -> Seq<u8> {
    |n: NodeView| enc_node(n)
}

/// [`sp_node`] as a value.
pub open spec fn node_dec() -> spec_fn(Seq<u8>, int) -> Result<(NodeView, int), (AuraError, int)> {
    |d: Seq<u8>, p: int| sp_node(d, p)
}

/// [`enc_edge`] as a value.
pub open spec fn edge_enc() -> spec_fn(EdgeView) -> Seq<u8> {
    |e: EdgeView| enc_edge(e)
}

/// [`sp_edge`] as a value.
pub open spec fn edge_dec() -> spec_fn(Seq<u8>, int) -> Result<(EdgeView, int), (AuraError, int)> {
    |d: Seq<u8>, p: int| sp_edge(d, p)
}

/// The serialized form of a graph.
pub open spec fn enc_dag(g: DagView) -> Seq<u8> {
    le_u32(g.nodes.len() as u32) + enc_list(g.nodes, node_enc()) + le_u32(g.edges.len() as u32)
        + enc_list(g.edges, edge_enc())
}

/// A graph decoded at position `p`.
pub open spec fn sp_dag(d: Seq<u8>, p: int) -> Result<(DagView, int), (AuraError, int)> {
    match sp_u32(d, p) {
        Err(e) => Err(e),
        Ok((n, p1)) => match sp_list(d, p1, n as nat, node_dec()) {
            Err(e) => Err(e),
            Ok((nodes, p2)) => match sp_u32(d, p2) {
                Err(e) => Err(e),
                Ok((m, p3)) => match sp_list(d, p3, m as nat, edge_dec()) {
                    Err(e) => Err(e),
                    Ok((edges, p4)) => Ok((DagView { nodes, edges }, p4)),
                },
            },
        },
    }
}

/// A graph whose sizes fit its encoding.
pub open spec fn dag_fits(g: DagView) -> bool {
    &&& g.nodes.len() <= u32::MAX
    &&& g.edges.len() <= u32::MAX
    &&& forall|i: int| 0 <= i < g.nodes.len() ==> node_fits(#[trigger] g.nodes[i])
    &&& forall|i: int| 0 <= i < g.edges.len() ==> edge_fits(#[trigger] g.edges[i])
}

/// Decoding the encoding of a node gives the node back.
pub proof fn lemma_node_round_trip(d: Seq<u8>, p: int, n: NodeView)
    requires
        has_at(d, p, enc_node(n)),
        node_fits(n),
    ensures
        sp_node(d, p) == Ok::<(NodeView, int), (AuraError, int)>((n, p + enc_node(n).len())),
{
    let a = le_u32(n.id);
    let b = enc_str(n.label);
    let c = le_u32(n.confidence_bits);
    lemma_has_at_split(d, p, a + b + c, enc_bytes(n.bitmask_rle));
    lemma_has_at_split3(d, p, a, b, c);
    lemma_sp_u32(d, p, n.id);
    lemma_sp_str(d, p + 4, n.label);
    lemma_sp_u32(d, p + 4 + b.len(), n.confidence_bits);
    lemma_sp_bytes(d, p + 8 + b.len(), n.bitmask_rle);
}

/// Decoding the encoding of an edge gives the edge back.
pub proof fn lemma_edge_round_trip(d: Seq<u8>, p: int, e: EdgeView)
    requires
        has_at(d, p, enc_edge(e)),
        edge_fits(e),
    ensures
        sp_edge(d, p) == Ok::<(EdgeView, int), (AuraError, int)>((e, p + enc_edge(e).len())),
{
    lemma_has_at_split3(d, p, le_u32(e.source), le_u32(e.target), enc_str(e.relationship));
    lemma_sp_u32(d, p, e.source);
    lemma_sp_u32(d, p + 4, e.target);
    lemma_sp_str(d, p + 8, e.relationship);
}

/// Decoding the encoding of a graph gives the graph back.
pub proof fn lemma_dag_round_trip(d: Seq<u8>, p: int, g: DagView)
    requires
        has_at(d, p, enc_dag(g)),
        dag_fits(g),
    ensures
        sp_dag(d, p) == Ok::<(DagView, int), (AuraError, int)>((g, p + enc_dag(g).len())),
{
    let encn = node_enc();
    let ence = edge_enc();
    let decn = node_dec();
    let dece = edge_dec();
    let fn_ = |n: NodeView| node_fits(n);
    let fe = |e: EdgeView| edge_fits(e);
    let a = le_u32(g.nodes.len() as u32);
    let b = enc_list(g.nodes, encn);
    let c = le_u32(g.edges.len() as u32);
    let e = enc_list(g.edges, ence);
    lemma_has_at_split(d, p, a + b + c, e);
    lemma_has_at_split3(d, p, a, b, c);
    lemma_sp_u32(d, p, g.nodes.len() as u32);
    assert(decodes_back(encn, decn, fn_)) by {
        assert forall|d2: Seq<u8>, p2: int, x: NodeView|
            fn_(x) && #[trigger] has_at(d2, p2, encn(x)) implies decn(d2, p2) == Ok::<
            (NodeView, int),
            (AuraError, int),
        >((x, p2 + encn(x).len())) by {
            lemma_node_round_trip(d2, p2, x);
        }
    }
    assert(decodes_back(ence, dece, fe)) by {
        assert forall|d2: Seq<u8>, p2: int, x: EdgeView|
            fe(x) && #[trigger] has_at(d2, p2, ence(x)) implies dece(d2, p2) == Ok::<
            (EdgeView, int),
            (AuraError, int),
        >((x, p2 + ence(x).len())) by {
            lemma_edge_round_trip(d2, p2, x);
        }
    }
    lemma_list_round_trip(d, p + 4, g.nodes, encn, decn, fn_);
    lemma_sp_u32(d, p + 4 + b.len(), g.edges.len() as u32);
    lemma_list_round_trip(d, p + 8 + b.len(), g.edges, ence, dece, fe);
}

impl ConceptNode {
    fn encode(&self, w: &mut Writer)
        ensures
            final(w)@ == old(w)@ + enc_node(self@),
    {
        w.put_u32(self.id);
        w.put_str(self.label.as_str());
        w.put_u32(self.confidence_bits);
        w.put_bytes(self.bitmask_rle.as_slice());
        assert(w@ =~= old(w)@ + enc_node(self@));
    }

    fn decode(r: &mut Reader) -> (res: Result<Self, AuraError>)
        ensures
            final(r).spec_data() == old(r).spec_data(),
            match sp_node(old(r).spec_data(), old(r).spec_pos()) {
                Ok((v, q)) => res matches Ok(n) && n@ == v && final(r).spec_pos() == q,
                Err((e, q)) => res == Err::<Self, AuraError>(e) && final(r).spec_pos() == q,
            },
    {
        let id = r.u32()?;
        let label = r.str()?;
        let confidence_bits = r.u32()?;
        let bitmask_rle = r.bytes()?;
        Ok(ConceptNode { id, label, confidence_bits, bitmask_rle })
    }
}

impl ConceptEdge {
    fn encode(&self, w: &mut Writer)
        ensures
            final(w)@ == old(w)@ + enc_edge(self@),
    {
        w.put_u32(self.source);
        w.put_u32(self.target);
        w.put_str(self.relationship.as_str());
        assert(w@ =~= old(w)@ + enc_edge(self@));
    }

    fn decode(r: &mut Reader) -> (res: Result<Self, AuraError>)
        ensures
            final(r).spec_data() == old(r).spec_data(),
            match sp_edge(old(r).spec_data(), old(r).spec_pos()) {
                Ok((v, q)) => res matches Ok(e) && e@ == v && final(r).spec_pos() == q,
                Err((e, q)) => res == Err::<Self, AuraError>(e) && final(r).spec_pos() == q,
            },
    {
        let source = r.u32()?;
        let target = r.u32()?;
        let relationship = r.str()?;
        Ok(ConceptEdge { source, target, relationship })
    }
}

impl SemanticDAG {
    /// An empty graph.
    pub fn new() -> (g: Self)
        ensures
            g@.nodes.len() == 0,
            g@.edges.len() == 0,
    {
        SemanticDAG { nodes: Vec::new(), edges: Vec::new() }
    }

    /// Add a concept node; returns its id.
    pub fn add_node(&mut self, node: ConceptNode) -> (id: u32)
        ensures
            id == node.id,
            final(self)@.nodes == old(self)@.nodes.push(node@),
            final(self)@.edges == old(self)@.edges,
    {
        let id = node.id;
        let ghost v = node@;
        self.nodes.push(node);
        assert(self@.nodes =~= old(self)@.nodes.push(v));
        id
    }

    /// Add a directed edge.
    pub fn add_edge(&mut self, edge: ConceptEdge)
        ensures
            final(self)@.nodes == old(self)@.nodes,
            final(self)@.edges == old(self)@.edges.push(edge@),
    {
        let ghost v = edge@;
        self.edges.push(edge);
        assert(self@.edges =~= old(self)@.edges.push(v));
    }

    /// Serialize into a writer.
    pub fn encode(&self, w: &mut Writer)
        ensures
            final(w)@ == old(w)@ + enc_dag(self@),
    {
        let ghost g = self@;
        w.put_u32(self.nodes.len() as u32);
        let ghost start = w@;
        let mut i: usize = 0;
        while i < self.nodes.len()
            invariant
                i <= self.nodes@.len(),
                g == self@,
                w@ == start + enc_list(g.nodes.subrange(0, i as int), node_enc()),
            decreases self.nodes@.len() - i,
        {
            self.nodes[i].encode(w);
            proof {
                let t = g.nodes.subrange(0, i as int + 1);
                assert(t.drop_last() =~= g.nodes.subrange(0, i as int));
                assert(w@ =~= start + enc_list(t, node_enc()));
            }
            i = i + 1;
        }
        assert(g.nodes.subrange(0, g.nodes.len() as int) =~= g.nodes);
        w.put_u32(self.edges.len() as u32);
        let ghost start2 = w@;
        let mut j: usize = 0;
        while j < self.edges.len()
            invariant
                j <= self.edges@.len(),
                g == self@,
                w@ == start2 + enc_list(g.edges.subrange(0, j as int), edge_enc()),
            decreases self.edges@.len() - j,
        {
            self.edges[j].encode(w);
            proof {
                let t = g.edges.subrange(0, j as int + 1);
                assert(t.drop_last() =~= g.edges.subrange(0, j as int));
                assert(w@ =~= start2 + enc_list(t, edge_enc()));
            }
            j = j + 1;
        }
        assert(g.edges.subrange(0, g.edges.len() as int) =~= g.edges);
        assert(w@ =~= old(w)@ + enc_dag(self@));
    }

    /// Deserialize from a reader.
    pub fn decode(r: &mut Reader) -> (res: Result<Self, AuraError>)
        ensures
            final(r).spec_data() == old(r).spec_data(),
            match sp_dag(old(r).spec_data(), old(r).spec_pos()) {
                Ok((v, q)) => res matches Ok(g) && g@ == v && final(r).spec_pos() == q,
                Err((e, q)) => res == Err::<Self, AuraError>(e) && final(r).spec_pos() == q,
            },
    {
        let ghost d = r.spec_data();
        let ghost whole = sp_dag(d, r.spec_pos());
        let n = r.u32()?;
        let ghost p1 = r.spec_pos();
        let mut nodes: Vec<ConceptNode> = Vec::new();
        let mut i: u32 = 0;
        assert(nodes@.map_values(|x: ConceptNode| x@) =~= Seq::<NodeView>::empty());
        while i < n
            invariant
                i <= n,
                r.spec_data() == d,
                d == old(r).spec_data(),
                whole == sp_dag(old(r).spec_data(), old(r).spec_pos()),
                whole == match sp_list(d, p1, n as nat, node_dec()) {
                    Err(e) => Err(e),
                    Ok((nodes, p2)) => match sp_u32(d, p2) {
                        Err(e) => Err(e),
                        Ok((m, p3)) => match sp_list(d, p3, m as nat, edge_dec()) {
                            Err(e) => Err(e),
                            Ok((edges, p4)) => Ok((DagView { nodes, edges }, p4)),
                        },
                    },
                },
                sp_list(d, p1, i as nat, node_dec()) == Ok::<(Seq<NodeView>, int), (AuraError, int)>(
                    (nodes@.map_values(|x: ConceptNode| x@), r.spec_pos()),
                ),
            decreases n - i,
        {
            let ghost before = nodes@;
            let x = match ConceptNode::decode(r) {
                Ok(x) => x,
                Err(err) => {
                    proof {
                        lemma_sp_list_err(d, p1, (i + 1) as nat, n as nat, node_dec());
                    }
                    return Err(err);
                },
            };
            nodes.push(x);
            proof {
                assert(nodes@.map_values(|x: ConceptNode| x@) =~= before.map_values(
                    |x: ConceptNode| x@,
                ).push(x@));
            }
            i = i + 1;
        }
        let ghost nv = nodes@.map_values(|x: ConceptNode| x@);
        let m = r.u32()?;
        let ghost p3 = r.spec_pos();
        let mut edges: Vec<ConceptEdge> = Vec::new();
        let mut j: u32 = 0;
        assert(edges@.map_values(|x: ConceptEdge| x@) =~= Seq::<EdgeView>::empty());
        while j < m
            invariant
                j <= m,
                r.spec_data() == d,
                d == old(r).spec_data(),
                whole == sp_dag(old(r).spec_data(), old(r).spec_pos()),
                nv == nodes@.map_values(|x: ConceptNode| x@),
                whole == match sp_list(d, p3, m as nat, edge_dec()) {
                    Err(e) => Err(e),
                    Ok((edges, p4)) => Ok((DagView { nodes: nv, edges }, p4)),
                },
                sp_list(d, p3, j as nat, edge_dec()) == Ok::<(Seq<EdgeView>, int), (AuraError, int)>(
                    (edges@.map_values(|x: ConceptEdge| x@), r.spec_pos()),
                ),
            decreases m - j,
        {
            let ghost before = edges@;
            let x = match ConceptEdge::decode(r) {
                Ok(x) => x,
                Err(err) => {
                    proof {
                        lemma_sp_list_err(d, p3, (j + 1) as nat, m as nat, edge_dec());
                    }
                    return Err(err);
                },
            };
            edges.push(x);
            proof {
                assert(edges@.map_values(|x: ConceptEdge| x@) =~= before.map_values(
                    |x: ConceptEdge| x@,
                ).push(x@));
            }
            j = j + 1;
        }
        Ok(SemanticDAG { nodes, edges })
    }
}

// ---------------------------------------------------------------------------
// Bitmask run-length encoding
// ---------------------------------------------------------------------------

/// A mask byte as stored: `0` stays `0`, anything else becomes `1`.
pub open spec fn bit_of(b: u8) -> u8 {
    if b < 1 {
        b
    } else {
        1
    }
}

/// The maximal runs `(value, length)` of equal bytes in `m`, in order.
pub open spec fn rle_runs(m: Seq<u8>) -> Seq<(u8, nat)>
    decreases m.len(),
{
    if m.len() == 0 {
        Seq::empty()
    } else {
        let r = rle_runs(m.drop_last());
        let b = m.last();
        if r.len() > 0 && r.last().0 == b {
            r.update(r.len() - 1, (b, r.last().1 + 1))
        } else {
            r.push((b, 1))
        }
    }
}

/// One stored run: the bit, then the run length as a little-endian `u32`.
pub open spec fn enc_run(r: (u8, nat)) -> Seq<u8> {
    seq![bit_of(r.0)] + le_u32(r.1 as u32)
}

/// The stored form of a list of runs.
pub open spec fn enc_runs(rs: Seq<(u8, nat)>) -> Seq<u8>
    decreases rs.len(),
{
    if rs.len() == 0 {
        Seq::empty()
    } else {
        enc_runs(rs.drop_last()) + enc_run(rs.last())
    }
}

/// The run-length encoding of a mask.
pub open spec fn spec_compress(m: Seq<u8>) -> Seq<u8> {
    enc_runs(rle_runs(m))
}

/// `n` copies of `v`.
pub open spec fn repeat(v: u8, n: nat) -> Seq<u8> {
    Seq::new(n, |i: int| v)
}

/// Decode stored runs from position `p` to the end of `d`.
pub open spec fn sp_rle(d: Seq<u8>, p: int) -> Result<Seq<u8>, AuraError>
    decreases d.len() - p,
{
    if p < 0 || p >= d.len() {
        Ok(Seq::empty())
    } else {
        match sp_u8(d, p) {
            Err((e, _)) => Err(e),
            Ok((v, p1)) => match sp_u32(d, p1) {
                Err((e, _)) => Err(e),
                Ok((c, p2)) => match sp_rle(d, p2) {
                    Err(e) => Err(e),
                    Ok(rest) => Ok(repeat(bit_of(v), c as nat) + rest),
                },
            },
        }
    }
}

/// The decompression of a stored mask.
pub open spec fn spec_decompress(rle: Seq<u8>) -> Result<Seq<u8>, AuraError> {
    sp_rle(rle, 0)
}

proof fn lemma_enc_runs_push(rs: Seq<(u8, nat)>, r: (u8, nat))
    ensures
        enc_runs(rs.push(r)) == enc_runs(rs) + enc_run(r),
{
    assert(rs.push(r).drop_last() =~= rs);
}

/// Every run is non-empty and no longer than the mask.
proof fn lemma_rle_runs_bounds(m: Seq<u8>)
    ensures
        forall|k: int|
            0 <= k < rle_runs(m).len() ==> 1 <= (#[trigger] rle_runs(m)[k]).1 <= m.len(),
        m.len() > 0 ==> rle_runs(m).len() > 0,
    decreases m.len(),
{
    if m.len() > 0 {
        let init = m.drop_last();
        lemma_rle_runs_bounds(init);
        let r = rle_runs(init);
        let b = m.last();
        if r.len() > 0 && r.last().0 == b {
            let r2 = r.update(r.len() - 1, (b, r.last().1 + 1));
            assert forall|k: int| 0 <= k < r2.len() implies 1 <= (#[trigger] r2[k]).1 <= m.len() by {
                if k < r.len() - 1 {
                    assert(r2[k] == r[k]);
                } else {
                    assert(r[r.len() - 1].1 <= init.len());
                }
            }
        } else {
            let r2 = r.push((b, 1));
            assert forall|k: int| 0 <= k < r2.len() implies 1 <= (#[trigger] r2[k]).1 <= m.len() by {
                if k < r.len() {
                    assert(r2[k] == r[k]);
                }
            }
        }
    }
}

/// The bytes the runs of a list stand for, each mapped through `bit_of`.
pub open spec fn expand(rs: Seq<(u8, nat)>) -> Seq<u8>
    decreases rs.len(),
{
    if rs.len() == 0 {
        Seq::empty()
    } else {
        expand(rs.drop_last()) + repeat(bit_of(rs.last().0), rs.last().1)
    }
}

proof fn lemma_expand_runs(m: Seq<u8>)
    ensures
        expand(rle_runs(m)) == m.map_values(|b: u8| bit_of(b)),
    decreases m.len(),
{
    if m.len() == 0 {
        assert(m.map_values(|b: u8| bit_of(b)) =~= Seq::<u8>::empty());
    } else {
        let init = m.drop_last();
        lemma_expand_runs(init);
        let r = rle_runs(init);
        let b = m.last();
        assert(m.map_values(|b: u8| bit_of(b)) =~= init.map_values(|b: u8| bit_of(b)).push(
            bit_of(b),
        ));
        if r.len() > 0 && r.last().0 == b {
            let r2 = r.update(r.len() - 1, (b, r.last().1 + 1));
            assert(r2.drop_last() =~= r.drop_last());
            assert(repeat(bit_of(b), r.last().1 + 1) =~= repeat(bit_of(b), r.last().1).push(
                bit_of(b),
            ));
        } else {
            assert(r.push((b, 1)).drop_last() =~= r);
            assert(repeat(bit_of(b), 1) =~= seq![bit_of(b)]);
        }
    }
}

/// Stored runs decode to the bytes they stand for.
proof fn lemma_sp_rle_runs(d: Seq<u8>, p: int, rs: Seq<(u8, nat)>)
    requires
        0 <= p,
        p + enc_runs(rs).len() == d.len(),
        d.subrange(p, d.len() as int) == enc_runs(rs),
        forall|k: int| 0 <= k < rs.len() ==> (#[trigger] rs[k]).1 <= u32::MAX,
    ensures
        sp_rle(d, p) == Ok::<Seq<u8>, AuraError>(expand(rs)),
    decreases rs.len(),
{
    if rs.len() == 0 {
    } else {
        // Peel the first run off the front.
        let first = rs[0];
        let rest = rs.drop_first();
        lemma_enc_runs_front(rs);
        assert(has_at(d, p, enc_runs(rs))) by {
            assert(d.subrange(p, p + enc_runs(rs).len()) =~= d.subrange(p, d.len() as int));
        }
        lemma_has_at_split3(d, p, seq![bit_of(first.0)], le_u32(first.1 as u32), enc_runs(rest));
        lemma_sp_u8(d, p, bit_of(first.0));
        lemma_sp_u32(d, p + 1, first.1 as u32);
        assert(d.subrange(p + 5, d.len() as int) =~= enc_runs(rest)) by {
            assert(d.subrange(p + 5, p + 5 + enc_runs(rest).len()) == enc_runs(rest));
        }
        assert forall|k: int| 0 <= k < rest.len() implies (#[trigger] rest[k]).1 <= u32::MAX by {
            assert(rest[k] == rs[k + 1]);
        }
        lemma_sp_rle_runs(d, p + 5, rest);
        lemma_expand_front(rs);
        assert(bit_of(bit_of(first.0)) == bit_of(first.0));
    }
}

proof fn lemma_enc_runs_front(rs: Seq<(u8, nat)>)
    requires
        rs.len() > 0,
    ensures
        enc_runs(rs) == enc_run(rs[0]) + enc_runs(rs.drop_first()),
    decreases rs.len(),
{
    if rs.len() == 1 {
        assert(rs.drop_last() =~= Seq::<(u8, nat)>::empty());
        assert(rs.drop_first() =~= Seq::<(u8, nat)>::empty());
    } else {
        lemma_enc_runs_front(rs.drop_last());
        assert(rs.drop_last().drop_first() =~= rs.drop_first().drop_last());
        assert(rs.drop_first().last() == rs.last());
    }
}

proof fn lemma_expand_front(rs: Seq<(u8, nat)>)
    requires
        rs.len() > 0,
    ensures
        expand(rs) == repeat(bit_of(rs[0].0), rs[0].1) + expand(rs.drop_first()),
    decreases rs.len(),
{
    if rs.len() == 1 {
        assert(rs.drop_last() =~= Seq::<(u8, nat)>::empty());
        assert(rs.drop_first() =~= Seq::<(u8, nat)>::empty());
    } else {
        lemma_expand_front(rs.drop_last());
        assert(rs.drop_last().drop_first() =~= rs.drop_first().drop_last());
        assert(rs.drop_first().last() == rs.last());
    }
}

/// Every run of `m` fits a `u32` count.
pub open spec fn runs_fit(m: Seq<u8>) -> bool {
    forall|k: int| 0 <= k < rle_runs(m).len() ==> (#[trigger] rle_runs(m)[k]).1 <= u32::MAX
}

/// The last run of a non-empty mask holds its last byte.
proof fn lemma_rle_last_value(p: Seq<u8>)
    requires
        p.len() > 0,
    ensures
        rle_runs(p).len() > 0,
        rle_runs(p).last().0 == p.last(),
    decreases p.len(),
{
    if p.len() > 1 {
        lemma_rle_last_value(p.drop_last());
    }
}

/// `n > 0` equal bytes form a single run.
pub proof fn lemma_rle_repeat(a: u8, n: nat)
    requires
        n > 0,
    ensures
        rle_runs(repeat(a, n)) == seq![(a, n)],
    decreases n,
{
    let r = repeat(a, n);
    assert(r.drop_last() =~= repeat(a, (n - 1) as nat));
    if n > 1 {
        lemma_rle_repeat(a, (n - 1) as nat);
        assert(seq![(a, (n - 1) as nat)].update(0, (a, n)) =~= seq![(a, n)]);
    } else {
        assert(rle_runs(repeat(a, 0)) =~= Seq::<(u8, nat)>::empty()) by {
            assert(repeat(a, 0) =~= Seq::<u8>::empty());
        }
        assert(Seq::<(u8, nat)>::empty().push((a, 1nat)) =~= seq![(a, n)]);
    }
}

/// `k > 0` copies of a byte other than the last of `p` add one run.
pub proof fn lemma_rle_append_repeat(p: Seq<u8>, b: u8, k: nat)
    requires
        p.len() > 0,
        p.last() != b,
        k > 0,
    ensures
        rle_runs(p + repeat(b, k)) == rle_runs(p).push((b, k)),
    decreases k,
{
    let q = p + repeat(b, k);
    lemma_rle_last_value(p);
    if k > 1 {
        lemma_rle_append_repeat(p, b, (k - 1) as nat);
        assert(q.drop_last() =~= p + repeat(b, (k - 1) as nat));
        let r = rle_runs(p).push((b, (k - 1) as nat));
        assert(r.update(r.len() - 1, (b, k)) =~= rle_runs(p).push((b, k)));
    } else {
        assert(q.drop_last() =~= p);
    }
}

/// Round-trip law of the bitmask codec: decompressing a compressed mask gives
/// the mask back, each byte stored as its bit (`0` or `1`); for a 0/1 mask
/// that is the mask itself.
pub proof fn law_bitmask_round_trip(m: Seq<u8>)
    requires
        runs_fit(m),
    ensures
        spec_decompress(spec_compress(m)) == Ok::<Seq<u8>, AuraError>(m.map_values(|b: u8| bit_of(b))),
        (forall|i: int| 0 <= i < m.len() ==> #[trigger] m[i] <= 1) ==> spec_decompress(
            spec_compress(m),
        ) == Ok::<Seq<u8>, AuraError>(m),
{
    let rs = rle_runs(m);
    lemma_rle_runs_bounds(m);
    let d = spec_compress(m);
    assert(d.subrange(0, d.len() as int) =~= d);
    lemma_sp_rle_runs(d, 0, rs);
    lemma_expand_runs(m);
    if forall|i: int| 0 <= i < m.len() ==> #[trigger] m[i] <= 1 {
        assert(m.map_values(|b: u8| bit_of(b)) =~= m);
    }
}

/// The runs of a non-empty prefix of `m` are those of `m`, but for the last,
/// which may be cut short.
proof fn lemma_prefix_runs(m: Seq<u8>, i: int)
    requires
        1 <= i <= m.len(),
    ensures
        rle_runs(m.subrange(0, i)).len() >= 1,
        rle_runs(m.subrange(0, i)).len() <= rle_runs(m).len(),
        forall|k: int|
            0 <= k < rle_runs(m.subrange(0, i)).len() - 1 ==> #[trigger] rle_runs(m.subrange(0, i))[k]
                == rle_runs(m)[k],
        rle_runs(m.subrange(0, i)).last().1 <= rle_runs(m)[rle_runs(m.subrange(0, i)).len() - 1].1,
    decreases m.len() - i,
{
    let p = m.subrange(0, i);
    lemma_rle_runs_bounds(p);
    if i == m.len() {
        assert(p =~= m);
    } else {
        lemma_prefix_runs(m, i + 1);
        let q = m.subrange(0, i + 1);
        assert(q.drop_last() =~= p);
        let r = rle_runs(p);
        let b = q.last();
        if r.len() > 0 && r.last().0 == b {
            let rq = rle_runs(q);
            assert(rq == r.update(r.len() - 1, (b, r.last().1 + 1)));
            assert forall|k: int| 0 <= k < r.len() - 1 implies #[trigger] r[k] == rle_runs(m)[k] by {
                assert(rq[k] == r[k]);
            }
        } else {
            let rq = rle_runs(q);
            assert(rq == r.push((b, 1)));
            assert forall|k: int| 0 <= k < r.len() - 1 implies #[trigger] r[k] == rle_runs(m)[k] by {
                assert(rq[k] == r[k]);
            }
            assert(rq[r.len() - 1] == r[r.len() - 1]);
        }
    }
}

/// Run-length-encode a 0/1 bitmask: a sequence of `(value: u8, count: u32)` runs.
pub fn compress_bitmask(mask: &[u8]) -> (out: Vec<u8>)
    requires
        runs_fit(mask@),
    ensures
        out@ == spec_compress(mask@),
{
    let mut out: Vec<u8> = Vec::new();
    if mask.len() == 0 {
        return out;
    }
    let mut value: u8 = mask[0];
    let mut count: u32 = 1;
    let ghost mut done: Seq<(u8, nat)> = Seq::empty();
    proof {
        let s = mask@.subrange(0, 1);
        assert(s.drop_last() =~= Seq::<u8>::empty());
        assert(rle_runs(Seq::<u8>::empty()) == Seq::<(u8, nat)>::empty());
        assert(s.last() == value);
        assert(rle_runs(s) =~= done.push((value, 1nat)));
    }
    let mut i: usize = 1;
    while i < mask.len()
        invariant
            1 <= i <= mask@.len(),
            runs_fit(mask@),
            1 <= count <= i,
            rle_runs(mask@.subrange(0, i as int)) == done.push((value, count as nat)),
            out@ == enc_runs(done),
        decreases mask@.len() - i,
    {
        let bit = mask[i];
        proof {
            let s = mask@.subrange(0, i as int + 1);
            assert(s.drop_last() =~= mask@.subrange(0, i as int));
            assert(s.last() == bit);
        }
        if bit == value {
            proof {
                lemma_prefix_runs(mask@, i as int + 1);
                let r = rle_runs(mask@.subrange(0, i as int + 1));
                assert(r.last().1 == count + 1);
                assert(rle_runs(mask@)[r.len() - 1].1 <= u32::MAX);
            }
            count = count + 1;
            proof {
                assert(done.push((value, (count - 1) as nat)).update(done.len() as int, (value, count as nat))
                    =~= done.push((value, count as nat)));
            }
        } else {
            let ghost old_out = out@;
            out.push(if value < 1 { value } else { 1 });
            out.push(#[verifier::truncate] ((count & 0xff) as u8));
            out.push(#[verifier::truncate] (((count >> 8) & 0xff) as u8));
            out.push(#[verifier::truncate] (((count >> 16) & 0xff) as u8));
            out.push(#[verifier::truncate] (((count >> 24) & 0xff) as u8));
            proof {
                lemma_enc_runs_push(done, (value, count as nat));
                assert(out@ =~= old_out + enc_run((value, count as nat)));
                done = done.push((value, count as nat));
            }
            value = bit;
            count = 1;
        }
        i = i + 1;
    }
    let ghost old_out = out@;
    out.push(if value < 1 { value } else { 1 });
    out.push(#[verifier::truncate] ((count & 0xff) as u8));
    out.push(#[verifier::truncate] (((count >> 8) & 0xff) as u8));
    out.push(#[verifier::truncate] (((count >> 16) & 0xff) as u8));
    out.push(#[verifier::truncate] (((count >> 24) & 0xff) as u8));
    proof {
        lemma_enc_runs_push(done, (value, count as nat));
        assert(out@ =~= old_out + enc_run((value, count as nat)));
        assert(mask@.subrange(0, mask@.len() as int) =~= mask@);
    }
    out
}

/// Reverse [`compress_bitmask`], reconstructing the original 0/1 mask.
pub fn decompress_bitmask(rle: &[u8]) -> (r: Result<Vec<u8>, AuraError>)
    ensures
        match spec_decompress(rle@) {
            Ok(m) => r matches Ok(v) && v@ == m,
            Err(e) => r == Err::<Vec<u8>, AuraError>(e),
        },
{
    let mut r = Reader::new(rle);
    let mut out: Vec<u8> = Vec::new();
    while r.remaining() > 0
        invariant
            r.spec_data() == rle@,
            0 <= r.spec_pos() <= rle@.len(),
            spec_decompress(rle@) == match sp_rle(rle@, r.spec_pos()) {
                Ok(rest) => Ok(out@ + rest),
                Err(e) => Err(e),
            },
        decreases rle@.len() - r.spec_pos(),
    {
        let value = r.u8()?;
        let count = r.u32()?;
        let bit = if value < 1 { value } else { 1 };
        let ghost before = out@;
        let mut k: u32 = 0;
        while k < count
            invariant
                k <= count,
                out@ == before + repeat(bit, k as nat),
            decreases count - k,
        {
            out.push(bit);
            k = k + 1;
            assert(out@ =~= before + repeat(bit, k as nat));
        }
        proof {
            if let Ok(rest) = sp_rle(rle@, r.spec_pos()) {
                assert(before + (repeat(bit, count as nat) + rest) =~= out@ + rest);
            }
        }
    }
    assert(out@ + Seq::<u8>::empty() =~= out@);
    Ok(out)
}

impl ConceptNode {
    /// Build a node from a raw (uncompressed) 0/1 bitmask.
    pub fn from_bitmask(id: u32, label: &str, confidence_bits: u32, mask: &[u8]) -> (n: Self)
        requires
            runs_fit(mask@),
        ensures
            n@ == (NodeView { id, label: label@, confidence_bits, bitmask_rle: spec_compress(mask@) }),
    {
        ConceptNode {
            id,
            label: label.to_owned(),
            confidence_bits,
            bitmask_rle: compress_bitmask(mask),
        }
    }

    /// Decompress the stored bitmask back into a 0/1 vector.
    pub fn bitmask(&self) -> (r: Result<Vec<u8>, AuraError>)
        ensures
            match spec_decompress(self@.bitmask_rle) {
                Ok(m) => r matches Ok(v) && v@ == m,
                Err(e) => r == Err::<Vec<u8>, AuraError>(e),
            },
    {
        decompress_bitmask(self.bitmask_rle.as_slice())
    }
}

// ---------------------------------------------------------------------------
// Kahn's algorithm
// ---------------------------------------------------------------------------

/// `v` is a vertex of the graph Kahn's algorithm runs on: the id of a node.
/// An edge counts only where both its ends are vertices.
pub open spec fn is_vertex(g: DagView, v: u32) -> bool {
    exists|i: int| 0 <= i < g.nodes.len() && #[trigger] g.nodes[i].id == v
}

/// `o` lists distinct vertices, and every edge into a listed vertex comes
/// from a vertex listed before it.
pub open spec fn is_closed_order(g: DagView, o: Seq<u32>) -> bool {
    &&& o.no_duplicates()
    &&& forall|k: int| 0 <= k < o.len() ==> is_vertex(g, #[trigger] o[k])
    &&& forall|k: int, j: int|
        #![trigger o[k], g.edges[j]]
        0 <= k < o.len() && 0 <= j < g.edges.len() && g.edges[j].target == o[k] && is_vertex(
            g,
            g.edges[j].source,
        ) ==> o.subrange(0, k).contains(g.edges[j].source)
}

/// No vertex missing from `o` has all its incoming edges from vertices in `o`.
pub open spec fn is_maximal_order(g: DagView, o: Seq<u32>) -> bool {
    forall|v: u32|
        #![trigger is_vertex(g, v)]
        is_vertex(g, v) && !o.contains(v) ==> exists|j: int|
            0 <= j < g.edges.len() && #[trigger] g.edges[j].target == v && is_vertex(
                g,
                g.edges[j].source,
            ) && !o.contains(g.edges[j].source)
}

/// `o` is an order Kahn's algorithm can produce: it removes vertices whose
/// incoming edges all come from removed vertices, until none is left.
pub open spec fn kahn_sorts(g: DagView, o: Seq<u32>) -> bool {
    is_closed_order(g, o) && is_maximal_order(g, o)
}

/// Every order Kahn's algorithm can produce holds one id per node: the
/// condition under which [`SemanticDAG::topo_sort`] succeeds.
pub open spec fn sorts_completely(g: DagView) -> bool {
    forall|o: Seq<u32>| kahn_sorts(g, o) ==> o.len() == g.nodes.len()
}

/// Number of edges in `es` into `t` whose source is a vertex of `g` not in
/// `done`.
pub open spec fn pending_in(g: DagView, es: Seq<EdgeView>, t: u32, done: Seq<u32>) -> nat
    decreases es.len(),
{
    if es.len() == 0 {
        0
    } else {
        pending_in(g, es.drop_last(), t, done) + if es.last().target == t && is_vertex(
            g,
            es.last().source,
        ) && !done.contains(es.last().source) {
            1nat
        } else {
            0nat
        }
    }
}

/// Number of edges in `es` from `s` into `t`.
pub open spec fn edges_from(es: Seq<EdgeView>, t: u32, s: u32) -> nat
    decreases es.len(),
{
    if es.len() == 0 {
        0
    } else {
        edges_from(es.drop_last(), t, s) + if es.last().target == t && es.last().source == s {
            1nat
        } else {
            0nat
        }
    }
}

proof fn lemma_pending_zero(g: DagView, es: Seq<EdgeView>, t: u32, done: Seq<u32>)
    ensures
        pending_in(g, es, t, done) == 0 <==> forall|j: int|
            0 <= j < es.len() && #[trigger] es[j].target == t && is_vertex(g, es[j].source)
                ==> done.contains(es[j].source),
    decreases es.len(),
{
    if es.len() > 0 {
        let init = es.drop_last();
        lemma_pending_zero(g, init, t, done);
        if pending_in(g, es, t, done) == 0 {
            assert forall|j: int|
                0 <= j < es.len() && #[trigger] es[j].target == t && is_vertex(
                    g,
                    es[j].source,
                ) implies done.contains(es[j].source) by {
                if j < es.len() - 1 {
                    assert(init[j] == es[j]);
                }
            }
        }
        if forall|j: int|
            0 <= j < es.len() && #[trigger] es[j].target == t && is_vertex(g, es[j].source)
                ==> done.contains(es[j].source) {
            assert forall|j: int|
                0 <= j < init.len() && #[trigger] init[j].target == t && is_vertex(
                    g,
                    init[j].source,
                ) implies done.contains(init[j].source) by {
                assert(init[j] == es[j]);
            }
            assert(es[es.len() - 1] == es.last());
        }
    }
}

proof fn lemma_pending_push(g: DagView, es: Seq<EdgeView>, t: u32, done: Seq<u32>, s: u32)
    requires
        !done.contains(s),
        is_vertex(g, s),
    ensures
        pending_in(g, es, t, done.push(s)) + edges_from(es, t, s) == pending_in(g, es, t, done),
    decreases es.len(),
{
    if es.len() > 0 {
        lemma_pending_push(g, es.drop_last(), t, done, s);
        let e = es.last();
        if done.push(s).contains(e.source) && !done.contains(e.source) {
            let k = choose|k: int| 0 <= k < done.push(s).len() && done.push(s)[k] == e.source;
            if k < done.len() {
                assert(done[k] == e.source);
            }
        }
        if done.contains(e.source) {
            let k = choose|k: int| 0 <= k < done.len() && done[k] == e.source;
            assert(done.push(s)[k] == e.source);
        }
        if e.source == s {
            assert(done.push(s)[done.len() as int] == s);
        }
    }
}

proof fn lemma_edges_from_prefix(es: Seq<EdgeView>, t: u32, s: u32, a: int, b: int)
    requires
        0 <= a <= b <= es.len(),
    ensures
        edges_from(es.subrange(0, a), t, s) <= edges_from(es.subrange(0, b), t, s),
    decreases b - a,
{
    if a < b {
        lemma_edges_from_prefix(es, t, s, a, b - 1);
        assert(es.subrange(0, b).drop_last() =~= es.subrange(0, b - 1));
    }
}

proof fn lemma_pending_ge_edges_from(g: DagView, es: Seq<EdgeView>, t: u32, done: Seq<u32>, s: u32)
    requires
        !done.contains(s),
        is_vertex(g, s),
    ensures
        edges_from(es, t, s) <= pending_in(g, es, t, done),
{
    lemma_pending_push(g, es, t, done, s);
}

proof fn lemma_nodup_subset_len(a: Seq<u32>, b: Seq<u32>)
    requires
        a.no_duplicates(),
        b.no_duplicates(),
        forall|i: int| 0 <= i < a.len() ==> b.contains(#[trigger] a[i]),
    ensures
        a.len() <= b.len(),
{
    a.unique_seq_to_set();
    b.unique_seq_to_set();
    assert(a.to_set().subset_of(b.to_set()));
    vstd::set_lib::lemma_len_subset(a.to_set(), b.to_set());
}

/// Vertices listed by a closed order are listed by every order Kahn's
/// algorithm can produce.
proof fn lemma_closed_within(g: DagView, o1: Seq<u32>, o2: Seq<u32>, k: int)
    requires
        is_closed_order(g, o1),
        kahn_sorts(g, o2),
        0 <= k <= o1.len(),
    ensures
        forall|m: int| 0 <= m < k ==> o2.contains(#[trigger] o1[m]),
    decreases k,
{
    if k > 0 {
        lemma_closed_within(g, o1, o2, k - 1);
        let m = k - 1;
        let v = o1[m];
        if !o2.contains(v) {
            assert(is_vertex(g, v));
            let j = choose|j: int|
                0 <= j < g.edges.len() && #[trigger] g.edges[j].target == v && is_vertex(
                    g,
                    g.edges[j].source,
                ) && !o2.contains(g.edges[j].source);
            assert(o1.subrange(0, m).contains(g.edges[j].source));
            let m2 = choose|m2: int| 0 <= m2 < m && o1.subrange(0, m)[m2] == g.edges[j].source;
            assert(o1[m2] == g.edges[j].source);
            assert(o2.contains(o1[m2]));
        }
    }
}

/// All orders Kahn's algorithm can produce have the same length.
pub proof fn lemma_kahn_orders_same_length(g: DagView, o1: Seq<u32>, o2: Seq<u32>)
    requires
        kahn_sorts(g, o1),
        kahn_sorts(g, o2),
    ensures
        o1.len() == o2.len(),
{
    lemma_closed_within(g, o1, o2, o1.len() as int);
    lemma_closed_within(g, o2, o1, o2.len() as int);
    lemma_nodup_subset_len(o1, o2);
    lemma_nodup_subset_len(o2, o1);
}

/// Node ids are pairwise distinct.
pub open spec fn ids_distinct(g: DagView) -> bool {
    forall|a: int, b: int| 0 <= a < b < g.nodes.len() ==> g.nodes[a].id != g.nodes[b].id
}

/// An edge from node id `s` to node id `t` exists.
pub open spec fn has_edge(g: DagView, s: u32, t: u32) -> bool {
    exists|j: int| 0 <= j < g.edges.len() && #[trigger] g.edges[j].source == s && g.edges[j].target == t
}

/// `c` is a directed cycle through node ids: an edge leads from each id to
/// the next, and from the last back to the first.
pub open spec fn is_cycle(g: DagView, c: Seq<u32>) -> bool {
    &&& c.len() > 0
    &&& forall|k: int| 0 <= k < c.len() ==> is_vertex(g, #[trigger] c[k])
    &&& forall|k: int| 0 <= k < c.len() ==> has_edge(g, #[trigger] c[k], c[(k + 1) % (c.len() as int)])
}

/// The graph contains a directed cycle among its nodes.
pub open spec fn has_directed_cycle(g: DagView) -> bool {
    exists|c: Seq<u32>| is_cycle(g, c)
}

/// No id of a cycle is listed by a closed order.
proof fn lemma_cycle_outside_order(g: DagView, o: Seq<u32>, c: Seq<u32>, q: int)
    requires
        is_closed_order(g, o),
        is_cycle(g, c),
        0 <= q <= o.len(),
    ensures
        forall|m: int, k: int| 0 <= m < q && 0 <= k < c.len() ==> o[m] != c[k],
    decreases q,
{
    if q > 0 {
        lemma_cycle_outside_order(g, o, c, q - 1);
        let m = q - 1;
        if exists|k: int| 0 <= k < c.len() && o[m] == c[k] {
            let k = choose|k: int| 0 <= k < c.len() && o[m] == c[k];
            let n = c.len() as int;
            let kp = if k == 0 {
                n - 1
            } else {
                k - 1
            };
            assert((kp + 1) % n == k) by {
                if k == 0 {
                    vstd::arithmetic::div_mod::lemma_mod_self_0(n);
                } else {
                    vstd::arithmetic::div_mod::lemma_small_mod(k as nat, n as nat);
                }
            }
            assert(has_edge(g, c[kp], c[(kp + 1) % n]));
            let j = choose|j: int|
                0 <= j < g.edges.len() && #[trigger] g.edges[j].source == c[kp] && g.edges[j].target
                    == c[k];
            assert(is_vertex(g, c[kp]));
            assert(g.edges[j].target == o[m]);
            assert(o.subrange(0, m).contains(g.edges[j].source));
            let m2 = choose|m2: int| 0 <= m2 < m && o.subrange(0, m)[m2] == g.edges[j].source;
            assert(o[m2] == c[kp]);
        }
    }
}

/// A walk of `n + 1` node ids outside `o`, each reached by an edge from the
/// next one, starting at `v`.
proof fn lemma_backward_walk(g: DagView, o: Seq<u32>, v: u32, n: nat) -> (w: Seq<u32>)
    requires
        is_maximal_order(g, o),
        is_vertex(g, v),
        !o.contains(v),
    ensures
        w.len() == n + 1,
        w[0] == v,
        forall|k: int| 0 <= k < w.len() ==> is_vertex(g, #[trigger] w[k]) && !o.contains(w[k]),
        forall|k: int| 0 <= k < n ==> has_edge(g, #[trigger] w[k + 1], w[k]),
    decreases n,
{
    if n == 0 {
        seq![v]
    } else {
        let w0 = lemma_backward_walk(g, o, v, (n - 1) as nat);
        let last = w0[n - 1];
        assert(is_vertex(g, last) && !o.contains(last));
        let j = choose|j: int|
            0 <= j < g.edges.len() && #[trigger] g.edges[j].target == last && is_vertex(
                g,
                g.edges[j].source,
            ) && !o.contains(g.edges[j].source);
        let u = g.edges[j].source;
        let w = w0.push(u);
        assert(has_edge(g, u, last));
        assert forall|k: int| 0 <= k < n implies has_edge(g, #[trigger] w[k + 1], w[k]) by {
            if k < n - 1 {
                assert(w[k + 1] == w0[k + 1] && w[k] == w0[k]);
            }
        }
        assert forall|k: int| 0 <= k < w.len() implies is_vertex(g, #[trigger] w[k]) && !o.contains(
            w[k],
        ) by {
            if k < w0.len() {
                assert(w[k] == w0[k]);
            }
        }
        w
    }
}

/// The node ids of `g`, in node order.
pub open spec fn node_ids(g: DagView) -> Seq<u32> {
    g.nodes.map_values(|n: NodeView| n.id)
}

/// A sequence of node ids longer than the node list repeats an id.
proof fn lemma_walk_repeats(g: DagView, w: Seq<u32>) -> (ij: (int, int))
    requires
        w.len() > g.nodes.len(),
        forall|k: int| 0 <= k < w.len() ==> is_vertex(g, #[trigger] w[k]),
    ensures
        0 <= ij.0 < ij.1 < w.len(),
        w[ij.0] == w[ij.1],
{
    let ids = node_ids(g);
    if w.no_duplicates() {
        assert forall|i: int| 0 <= i < w.len() implies ids.contains(#[trigger] w[i]) by {
            let m = choose|m: int| 0 <= m < g.nodes.len() && #[trigger] g.nodes[m].id == w[i];
            assert(ids[m] == w[i]);
        }
        w.unique_seq_to_set();
        assert(w.to_set().subset_of(ids.to_set()));
        vstd::set_lib::lemma_len_subset(w.to_set(), ids.to_set());
        ids.lemma_cardinality_of_set();
        assert(false);
        (0, 0)
    } else {
        let (a, b) = choose|a: int, b: int| 0 <= a < w.len() && 0 <= b < w.len() && a != b && w[a]
            == w[b];
        if a < b {
            (a, b)
        } else {
            (b, a)
        }
    }
}

/// Where a maximal order misses a node id, the graph has a directed cycle.
proof fn lemma_missing_vertex_gives_cycle(g: DagView, o: Seq<u32>, v: u32)
    requires
        is_maximal_order(g, o),
        is_vertex(g, v),
        !o.contains(v),
    ensures
        has_directed_cycle(g),
{
    let w = lemma_backward_walk(g, o, v, g.nodes.len());
    let (i, j) = lemma_walk_repeats(g, w);
    let n = j - i;
    let c = Seq::new(n as nat, |k: int| w[j - k]);
    assert forall|k: int| 0 <= k < c.len() implies is_vertex(g, #[trigger] c[k]) by {
        assert(c[k] == w[j - k]);
    }
    assert forall|k: int| 0 <= k < c.len() implies has_edge(
        g,
        #[trigger] c[k],
        c[(k + 1) % (c.len() as int)],
    ) by {
        if k + 1 < n {
            vstd::arithmetic::div_mod::lemma_small_mod((k + 1) as nat, n as nat);
            assert(has_edge(g, w[(j - k - 1) + 1], w[j - k - 1]));
        } else {
            vstd::arithmetic::div_mod::lemma_mod_self_0(n);
            assert(c[0] == w[i]);
            assert(has_edge(g, w[i + 1], w[i]));
        }
    }
    assert(is_cycle(g, c));
}

/// An order of distinct node ids that lists fewer ids than there are nodes
/// misses a node id.
proof fn lemma_short_order_misses(g: DagView, o: Seq<u32>) -> (v: u32)
    requires
        ids_distinct(g),
        o.no_duplicates(),
        o.len() < g.nodes.len(),
    ensures
        is_vertex(g, v),
        !o.contains(v),
{
    let ids = node_ids(g);
    if forall|m: int| 0 <= m < ids.len() ==> o.contains(#[trigger] ids[m]) {
        assert(ids.no_duplicates()) by {
            assert forall|a: int, b: int| 0 <= a < b < ids.len() implies ids[a] != ids[b] by {
                assert(ids[a] == g.nodes[a].id && ids[b] == g.nodes[b].id);
            }
        }
        lemma_nodup_subset_len(ids, o);
        assert(false);
        0
    } else {
        let m = choose|m: int| 0 <= m < ids.len() && !o.contains(#[trigger] ids[m]);
        assert(g.nodes[m].id == ids[m]);
        ids[m]
    }
}

/// A closed order of distinct ids lists fewer ids than there are nodes when
/// the graph has a cycle.
proof fn lemma_cycle_shortens_order(g: DagView, o: Seq<u32>)
    requires
        is_closed_order(g, o),
        has_directed_cycle(g),
    ensures
        o.len() < g.nodes.len(),
{
    let c = choose|c: Seq<u32>| is_cycle(g, c);
    lemma_cycle_outside_order(g, o, c, o.len() as int);
    let ids = node_ids(g);
    assert forall|i: int| 0 <= i < o.len() implies ids.contains(#[trigger] o[i]) by {
        let m = choose|m: int| 0 <= m < g.nodes.len() && #[trigger] g.nodes[m].id == o[i];
        assert(ids[m] == o[i]);
    }
    assert(is_vertex(g, c[0]));
    let m0 = choose|m: int| 0 <= m < g.nodes.len() && #[trigger] g.nodes[m].id == c[0];
    assert(ids[m0] == c[0]);
    assert(!o.contains(c[0]));
    o.unique_seq_to_set();
    assert(o.to_set().subset_of(ids.to_set().remove(c[0])));
    ids.lemma_cardinality_of_set();
    vstd::set_lib::lemma_len_subset(o.to_set(), ids.to_set().remove(c[0]));
}

/// Kahn law: for a graph whose node ids are distinct, an order Kahn's
/// algorithm produces lists every node exactly when the graph has no
/// directed cycle among its nodes.
pub proof fn law_kahn_complete_iff_acyclic(g: DagView, o: Seq<u32>)
    requires
        ids_distinct(g),
        kahn_sorts(g, o),
    ensures
        o.len() == g.nodes.len() <==> !has_directed_cycle(g),
{
    if has_directed_cycle(g) {
        lemma_cycle_shortens_order(g, o);
    } else if o.len() != g.nodes.len() {
        let ids = node_ids(g);
        assert forall|i: int| 0 <= i < o.len() implies ids.contains(#[trigger] o[i]) by {
            let m = choose|m: int| 0 <= m < g.nodes.len() && #[trigger] g.nodes[m].id == o[i];
            assert(ids[m] == o[i]);
        }
        lemma_nodup_subset_len(o, ids);
        let v = lemma_short_order_misses(g, o);
        lemma_missing_vertex_gives_cycle(g, o, v);
    }
}

fn position_of(keys: &Vec<u32>, x: u32) -> (r: Option<usize>)
    ensures
        r matches Some(k) ==> k < keys@.len() && keys@[k as int] == x,
        r is None ==> !keys@.contains(x),
{
    let mut i: usize = 0;
    while i < keys.len()
        invariant
            i <= keys@.len(),
            forall|k: int| 0 <= k < i ==> keys@[k] != x,
        decreases keys@.len() - i,
    {
        if keys[i] == x {
            return Some(i);
        }
        i = i + 1;
    }
    None
}


/// The vertices Kahn's algorithm runs on, each once: the node ids.
fn vertex_keys(g: &SemanticDAG) -> (keys: Vec<u32>)
    ensures
        keys@.no_duplicates(),
        forall|k: int| 0 <= k < keys@.len() ==> is_vertex(g@, #[trigger] keys@[k]),
        forall|v: u32| is_vertex(g@, v) ==> keys@.contains(v),
{
    let mut keys: Vec<u32> = Vec::new();
    let mut i: usize = 0;
    while i < g.nodes.len()
        invariant
            i <= g.nodes@.len(),
            keys@.no_duplicates(),
            forall|k: int| 0 <= k < keys@.len() ==> is_vertex(g@, #[trigger] keys@[k]),
            forall|m: int| 0 <= m < i ==> keys@.contains(#[trigger] g@.nodes[m].id),
        decreases g.nodes@.len() - i,
    {
        let id = g.nodes[i].id;
        assert(g@.nodes[i as int].id == id);
        if position_of(&keys, id).is_none() {
            let ghost old_keys = keys@;
            keys.push(id);
            assert forall|k: int| 0 <= k < keys@.len() implies is_vertex(g@, #[trigger] keys@[k]) by {
                if k < old_keys.len() {
                    assert(keys@[k] == old_keys[k]);
                }
            }
            assert forall|m: int| 0 <= m <= i implies keys@.contains(#[trigger] g@.nodes[m].id) by {
                if m < i {
                    let x = choose|x: int| 0 <= x < old_keys.len() && old_keys[x] == g@.nodes[m].id;
                    assert(keys@[x] == old_keys[x]);
                } else {
                    assert(keys@[old_keys.len() as int] == id);
                }
            }
        }
        i = i + 1;
    }
    proof {
        assert forall|v: u32| is_vertex(g@, v) implies keys@.contains(v) by {
            let m = choose|m: int| 0 <= m < g@.nodes.len() && #[trigger] g@.nodes[m].id == v;
        }
    }
    keys
}


/// Number of edges of `g` into `t` whose source is a node id (`keys` lists
/// the node ids).
fn count_into(g: &SemanticDAG, keys: &Vec<u32>, t: u32) -> (c: usize)
    requires
        forall|k: int| 0 <= k < keys@.len() ==> is_vertex(g@, #[trigger] keys@[k]),
        forall|v: u32| is_vertex(g@, v) ==> keys@.contains(v),
    ensures
        c == pending_in(g@, g@.edges, t, Seq::<u32>::empty()),
{
    let ghost es = g@.edges;
    let mut c: usize = 0;
    let mut j: usize = 0;
    while j < g.edges.len()
        invariant
            es == g@.edges,
            j <= es.len(),
            c <= j,
            forall|k: int| 0 <= k < keys@.len() ==> is_vertex(g@, #[trigger] keys@[k]),
            forall|v: u32| is_vertex(g@, v) ==> keys@.contains(v),
            c == pending_in(g@, es.subrange(0, j as int), t, Seq::<u32>::empty()),
        decreases es.len() - j,
    {
        assert(es.subrange(0, j + 1).drop_last() =~= es.subrange(0, j as int));
        assert(es.subrange(0, j + 1).last() == es[j as int]);
        if g.edges[j].target == t && position_of(keys, g.edges[j].source).is_some() {
            c = c + 1;
        }
        j = j + 1;
    }
    assert(es.subrange(0, es.len() as int) =~= es);
    c
}

/// Appending a vertex whose incoming edges all come from `o` keeps `o` closed.
proof fn lemma_closed_push(g: DagView, o: Seq<u32>, s: u32)
    requires
        is_closed_order(g, o),
        !o.contains(s),
        is_vertex(g, s),
        forall|j: int|
            0 <= j < g.edges.len() && #[trigger] g.edges[j].target == s && is_vertex(
                g,
                g.edges[j].source,
            ) ==> o.contains(g.edges[j].source),
    ensures
        is_closed_order(g, o.push(s)),
{
    let o2 = o.push(s);
    assert forall|a: int, b: int| 0 <= a < b < o2.len() implies o2[a] != o2[b] by {
        if b == o.len() {
            assert(o.contains(o[a]));
        }
    }
    assert forall|k: int| 0 <= k < o2.len() implies is_vertex(g, #[trigger] o2[k]) by {
        if k < o.len() {
            assert(o2[k] == o[k]);
        }
    }
    assert forall|k: int, j: int|
        #![trigger o2[k], g.edges[j]]
        0 <= k < o2.len() && 0 <= j < g.edges.len() && g.edges[j].target == o2[k] && is_vertex(
            g,
            g.edges[j].source,
        ) implies o2.subrange(0, k).contains(g.edges[j].source) by {
        if k < o.len() {
            assert(o2[k] == o[k]);
            assert(o2.subrange(0, k) =~= o.subrange(0, k));
        } else {
            assert(o2.subrange(0, k) =~= o);
        }
    }
}

/// Where no vertex outside `o` has all its incoming edges from `o`, `o` is
/// maximal.
proof fn lemma_maximal(g: DagView, keys: Seq<u32>, indeg: Seq<usize>, queue: Seq<usize>, o: Seq<u32>)
    requires
        forall|v: u32| is_vertex(g, v) ==> keys.contains(v),
        keys.len() <= usize::MAX,
        indeg.len() == keys.len(),
        forall|x: int| 0 <= x < keys.len() ==> indeg[x] == pending_in(g, g.edges, #[trigger] keys[x], o),
        forall|x: usize| x < keys.len() ==> (queue.contains(x) <==> #[trigger] indeg[x as int] == 0),
        o.len() == queue.len(),
        forall|i: int| 0 <= i < queue.len() ==> queue[i] < keys.len(),
        forall|i: int| 0 <= i < o.len() ==> o[i] == keys[#[trigger] queue[i] as int],
    ensures
        is_maximal_order(g, o),
{
    assert forall|v: u32| #[trigger] is_vertex(g, v) && !o.contains(v) implies exists|j: int|
        0 <= j < g.edges.len() && #[trigger] g.edges[j].target == v && is_vertex(
            g,
            g.edges[j].source,
        ) && !o.contains(g.edges[j].source) by {
        let x = choose|x: int| 0 <= x < keys.len() && keys[x] == v;
        if indeg[x] == 0 {
            let xu = x as usize;
            assert(indeg[xu as int] == 0);
            assert(queue.contains(xu));
            let i = choose|i: int| 0 <= i < queue.len() && queue[i] == xu;
            assert(o[i] == keys[x]);
            assert(o.contains(v));
        }
        lemma_pending_zero(g, g.edges, v, o);
    }
}


/// Takes the edges out of `s`, just listed after `done`: the count of
/// pending edges of each target drops, and a target whose count reaches zero
/// joins the queue.
fn release(
    g: &SemanticDAG,
    keys: &Vec<u32>,
    indeg: &mut Vec<usize>,
    queue: &mut Vec<usize>,
    s: u32,
    Ghost(done): Ghost<Seq<u32>>,
)
    requires
        keys@.no_duplicates(),
        forall|v: u32| is_vertex(g@, v) ==> keys@.contains(v),
        old(indeg)@.len() == keys@.len(),
        forall|x: int|
            0 <= x < keys@.len() ==> old(indeg)@[x] == pending_in(g@, g@.edges, #[trigger] keys@[x], done),
        !done.contains(s),
        is_vertex(g@, s),
        old(queue)@.no_duplicates(),
        forall|i: int| 0 <= i < old(queue)@.len() ==> #[trigger] old(queue)@[i] < keys@.len(),
        forall|x: usize|
            x < keys@.len() ==> (old(queue)@.contains(x) <==> #[trigger] old(indeg)@[x as int] == 0),
    ensures
        final(indeg)@.len() == keys@.len(),
        forall|x: int|
            0 <= x < keys@.len() ==> final(indeg)@[x] == pending_in(
                g@,
                g@.edges,
                #[trigger] keys@[x],
                done.push(s),
            ),
        final(queue)@.no_duplicates(),
        forall|i: int| 0 <= i < final(queue)@.len() ==> #[trigger] final(queue)@[i] < keys@.len(),
        forall|x: usize|
            x < keys@.len() ==> (final(queue)@.contains(x) <==> #[trigger] final(indeg)@[x as int]
                == 0),
        old(queue)@.len() <= final(queue)@.len(),
        forall|i: int| 0 <= i < old(queue)@.len() ==> #[trigger] final(queue)@[i] == old(queue)@[i],
{
    let ghost es = g@.edges;
    let ghost q0 = queue@;
    let ghost d0 = indeg@;
    let mut j: usize = 0;
    while j < g.edges.len()
        invariant
            es == g@.edges,
            j <= es.len(),
            keys@.no_duplicates(),
            forall|v: u32| is_vertex(g@, v) ==> keys@.contains(v),
            !done.contains(s),
            is_vertex(g@, s),
            indeg@.len() == keys@.len(),
            forall|x: int|
                0 <= x < keys@.len() ==> d0[x] == pending_in(g@, es, #[trigger] keys@[x], done),
            forall|x: int|
                0 <= x < keys@.len() ==> indeg@[x] + edges_from(
                    es.subrange(0, j as int),
                    #[trigger] keys@[x],
                    s,
                ) == d0[x],
            queue@.no_duplicates(),
            forall|i: int| 0 <= i < queue@.len() ==> #[trigger] queue@[i] < keys@.len(),
            forall|x: usize|
                x < keys@.len() ==> (queue@.contains(x) <==> #[trigger] indeg@[x as int] == 0),
            q0.len() <= queue@.len(),
            forall|i: int| 0 <= i < q0.len() ==> #[trigger] queue@[i] == q0[i],
        decreases es.len() - j,
    {
        let ghost pre = es.subrange(0, j as int);
        let ghost post = es.subrange(0, j + 1);
        assert(post.drop_last() =~= pre);
        assert(post.last() == es[j as int]);
        let src = g.edges[j].source;
        let tgt = g.edges[j].target;
        if src == s {
            match position_of(keys, tgt) {
                Some(p) => {
                    proof {
                        lemma_edges_from_prefix(es, tgt, s, j + 1, es.len() as int);
                        assert(es.subrange(0, es.len() as int) =~= es);
                        lemma_pending_ge_edges_from(g@, es, tgt, done, s);
                        assert(indeg@[p as int] + edges_from(pre, keys@[p as int], s) == d0[p as int]);
                    }
                    let ghost qb = queue@;
                    let ghost ib = indeg@;
                    let d = indeg[p] - 1;
                    indeg.set(p, d);
                    if d == 0 {
                        assert(!qb.contains(p)) by {
                            assert(ib[p as int] != 0);
                        }
                        queue.push(p);
                        assert forall|x: usize| x < keys@.len() implies (queue@.contains(x) <==> #[trigger] indeg@[x as int] == 0) by {
                            if x != p {
                                assert(indeg@[x as int] == ib[x as int]);
                                if qb.contains(x) {
                                    let i = choose|i: int| 0 <= i < qb.len() && qb[i] == x;
                                    assert(queue@[i] == x);
                                }
                                if queue@.contains(x) {
                                    let i = choose|i: int| 0 <= i < queue@.len() && queue@[i] == x;
                                    assert(i < qb.len());
                                    assert(qb[i] == x);
                                }
                            } else {
                                assert(queue@[qb.len() as int] == p);
                            }
                        }
                        assert forall|a: int, b: int| 0 <= a < b < queue@.len() implies queue@[a] != queue@[b] by {
                            if b == qb.len() {
                                assert(qb.contains(qb[a]));
                            }
                        }
                    } else {
                        assert forall|x: usize| x < keys@.len() implies (queue@.contains(x) <==> #[trigger] indeg@[x as int] == 0) by {
                            if x != p {
                                assert(indeg@[x as int] == ib[x as int]);
                            }
                        }
                    }
                    assert forall|x: int| 0 <= x < keys@.len() implies indeg@[x] + edges_from(
                        post,
                        #[trigger] keys@[x],
                        s,
                    ) == d0[x] by {
                        if x != p {
                            assert(keys@[x] != keys@[p as int]);
                        }
                    }
                },
                None => {
                    assert forall|x: int| 0 <= x < keys@.len() implies indeg@[x] + edges_from(
                        post,
                        #[trigger] keys@[x],
                        s,
                    ) == d0[x] by {
                        assert(keys@[x] != tgt);
                    }
                },
            }
        } else {
            assert forall|x: int| 0 <= x < keys@.len() implies indeg@[x] + edges_from(
                post,
                #[trigger] keys@[x],
                s,
            ) == d0[x] by {}
        }
        j = j + 1;
    }
    assert(es.subrange(0, es.len() as int) =~= es);
    assert forall|x: int| 0 <= x < keys@.len() implies indeg@[x] == pending_in(
        g@,
        es,
        #[trigger] keys@[x],
        done.push(s),
    ) by {
        lemma_pending_push(g@, es, keys@[x], done, s);
    }
}


impl SemanticDAG {
    /// Topologically sort node ids (Kahn's algorithm). Returns
    /// [`AuraError::CycleDetected`] if a cycle exists.
    ///
    /// The vertices are the node ids, and an edge counts where both its ends
    /// are node ids; the order lists each vertex once, after the sources of
    /// all its incoming edges, and succeeds when it holds as many ids as
    /// there are nodes.
    pub fn topo_sort(&self) -> (r: Result<Vec<u32>, AuraError>)
        ensures
            r is Ok <==> sorts_completely(self@),
            r matches Ok(o) ==> kahn_sorts(self@, o@) && o@.len() == self@.nodes.len(),
            r matches Err(e) ==> e == AuraError::CycleDetected,
            // With distinct node ids, the sort fails exactly on a cycle.
            ids_distinct(self@) ==> (r is Ok <==> !has_directed_cycle(self@)),
    {
        let ghost g = self@;
        let ghost es = self@.edges;
        let keys = vertex_keys(self);
        let mut indeg: Vec<usize> = Vec::new();
        let mut queue: Vec<usize> = Vec::new();
        let mut k: usize = 0;
        while k < keys.len()
            invariant
                k <= keys@.len(),
                indeg@.len() == k,
                forall|x: int|
                    0 <= x < k ==> indeg@[x] == pending_in(g, es, #[trigger] keys@[x], Seq::<u32>::empty()),
                queue@.no_duplicates(),
                forall|i: int| 0 <= i < queue@.len() ==> #[trigger] queue@[i] < k,
                forall|x: usize| x < k ==> (queue@.contains(x) <==> #[trigger] indeg@[x as int] == 0),
                es == self@.edges,
                g == self@,
                forall|x: int| 0 <= x < keys@.len() ==> is_vertex(g, #[trigger] keys@[x]),
                forall|v: u32| is_vertex(g, v) ==> keys@.contains(v),
            decreases keys@.len() - k,
        {
            let c = count_into(self, &keys, keys[k]);
            let ghost qb = queue@;
            indeg.push(c);
            if c == 0 {
                queue.push(k);
                assert forall|a: int, b: int| 0 <= a < b < queue@.len() implies queue@[a] != queue@[b] by {
                    if b == qb.len() {
                        assert(qb[a] < k);
                    }
                }
            }
            assert forall|x: usize| x <= k implies (queue@.contains(x) <==> #[trigger] indeg@[x as int] == 0) by {
                if x < k {
                    assert(indeg@[x as int] == indeg@.drop_last()[x as int]);
                    if qb.contains(x) {
                        let i = choose|i: int| 0 <= i < qb.len() && qb[i] == x;
                        assert(queue@[i] == x);
                    }
                    if queue@.contains(x) {
                        let i = choose|i: int| 0 <= i < queue@.len() && queue@[i] == x;
                        if i == qb.len() {
                            assert(queue@[i] == k);
                        } else {
                            assert(qb[i] == x);
                        }
                    }
                } else if c == 0 {
                    assert(queue@[qb.len() as int] == k);
                } else {
                    if queue@.contains(x) {
                        let i = choose|i: int| 0 <= i < queue@.len() && queue@[i] == x;
                        assert(qb[i] < k);
                    }
                }
            }
            k = k + 1;
        }
        assert forall|x: int| 0 <= x < keys@.len() implies indeg@[x] == pending_in(
            g,
            es,
            #[trigger] keys@[x],
            Seq::<u32>::empty().take(0),
        ) by {
            assert(Seq::<u32>::empty().take(0) =~= Seq::<u32>::empty());
        }
        let mut order: Vec<u32> = Vec::new();
        let mut qh: usize = 0;
        assert(order@ =~= Seq::<u32>::empty().take(0));
        while qh < queue.len()
            invariant
                g == self@,
                es == self@.edges,
                keys@.no_duplicates(),
                forall|x: int| 0 <= x < keys@.len() ==> is_vertex(g, #[trigger] keys@[x]),
                forall|v: u32| is_vertex(g, v) ==> keys@.contains(v),
                indeg@.len() == keys@.len(),
                forall|x: int|
                    0 <= x < keys@.len() ==> indeg@[x] == pending_in(g, es, #[trigger] keys@[x], order@),
                queue@.no_duplicates(),
                forall|i: int| 0 <= i < queue@.len() ==> #[trigger] queue@[i] < keys@.len(),
                forall|x: usize|
                    x < keys@.len() ==> (queue@.contains(x) <==> #[trigger] indeg@[x as int] == 0),
                qh <= queue@.len(),
                qh <= keys@.len(),
                order@.len() == qh,
                forall|i: int| 0 <= i < qh ==> order@[i] == keys@[#[trigger] queue@[i] as int],
                is_closed_order(g, order@),
            decreases keys@.len() - qh,
        {
            let x = queue[qh];
            let s = keys[x];
            let ghost done = order@;
            proof {
                assert(queue@.contains(x));
                assert(indeg@[x as int] == 0);
                lemma_pending_zero(g, es, s, done);
                assert(is_vertex(g, keys@[x as int]));
                assert forall|i: int| 0 <= i < done.len() implies done[i] != s by {
                    assert(queue@[i] != queue@[qh as int]);
                    assert(done[i] == keys@[queue@[i] as int]);
                }
                lemma_closed_push(g, done, s);
            }
            order.push(s);
            release(self, &keys, &mut indeg, &mut queue, s, Ghost(done));
            qh = qh + 1;
            proof {
                assert forall|i: int| 0 <= i < qh implies order@[i] == keys@[#[trigger] queue@[i] as int] by {
                    if i < done.len() {
                        assert(order@[i] == done[i]);
                    }
                }
                assert forall|i: int| 0 <= i < order@.len() implies keys@.contains(#[trigger] order@[i]) by {
                    assert(keys@[queue@[i] as int] == order@[i]);
                }
                lemma_nodup_subset_len(order@, keys@);
            }
        }
        proof {
            lemma_maximal(g, keys@, indeg@, queue@, order@);
            if order@.len() == self.nodes@.len() {
                assert forall|o: Seq<u32>| kahn_sorts(g, o) implies o.len() == g.nodes.len() by {
                    lemma_kahn_orders_same_length(g, order@, o);
                }
            }
            if ids_distinct(g) {
                law_kahn_complete_iff_acyclic(g, order@);
            }
        }
        if order.len() != self.nodes.len() {
            return Err(AuraError::CycleDetected);
        }
        Ok(order)
    }

    /// Whether the graph contains a directed cycle (Kahn's algorithm).
    pub fn has_cycle(&self) -> (b: bool)
        ensures
            b == !sorts_completely(self@),
            ids_distinct(self@) ==> b == has_directed_cycle(self@),
    {
        self.topo_sort().is_err()
    }
}

} // verus!
