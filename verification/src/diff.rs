//! Semantic/structural diffing between two AURA files.
//!
//! [`diff`] compares the parsed sections of two [`AuraFile`]s and reports what
//! changed between them: the Semantic DAG (concept nodes and edges), the record
//! layout, and the provenance ledger. It powers the `aura diff` CLI command and
//! is also usable as a library for tooling that tracks how a master file evolves
//! across edits.
//!
//! Nodes are keyed by id; when a graph lists an id twice, the later node
//! counts. Whether two confidences differ is decided by a comparison the
//! caller passes in (confidences are `f32` bit patterns here).
use crate::container::{child_tag, AuraFile, ChildView, Record, SceneChild};
use crate::provenance::{op_name, EntryView, LedgerEntry, OpType};
use crate::semantic::{ConceptEdge, ConceptNode, DagView, EdgeView, NodeView, SemanticDAG};
use crate::text::bytes_eq;
use vstd::prelude::*;

verus! {

// ---------------------------------------------------------------------------
// Report types
// ---------------------------------------------------------------------------

/// A change to a single concept node (confidence, label or bitmask).
#[derive(Debug, Clone, PartialEq, Eq)]
pub struct NodeChange {
    /// Node id (stable across edits).
    pub id: u32,
    /// Concept label (as in file B).
    pub label: String,
    /// Confidence in file A, as the bit pattern of an `f32`.
    pub old_confidence_bits: u32,
    /// Confidence in file B, as the bit pattern of an `f32`.
    pub new_confidence_bits: u32,
}

/// Diff of the Semantic DAG between two files.
#[derive(Debug, Clone, PartialEq, Eq)]
pub struct DagDiff {
    /// Concept nodes present only in B.
    pub nodes_added: Vec<(u32, String)>,
    /// Concept nodes present only in A.
    pub nodes_removed: Vec<(u32, String)>,
    /// Nodes present in both but with different confidence, label or bitmask.
    pub nodes_changed: Vec<NodeChange>,
    /// Edges present only in B.
    pub edges_added: Vec<(u32, u32, String)>,
    /// Edges present only in A.
    pub edges_removed: Vec<(u32, u32, String)>,
}

/// Per-record-type count difference.
#[derive(Debug, Clone, Copy, PartialEq, Eq)]
pub struct RecordTypeDiff {
    /// Record type tag.
    pub type_tag: u8,
    /// Count in file A.
    pub a: usize,
    /// Count in file B.
    pub b: usize,
}

/// Diff of the polymorphic record layout.
#[derive(Debug, Clone, PartialEq, Eq)]
pub struct RecordsDiff {
    /// Per-type-tag counts that differ between the files.
    pub by_type: Vec<RecordTypeDiff>,
}

/// Diff of the provenance ledger (append-only edit history).
#[derive(Debug, Clone, PartialEq, Eq)]
pub struct LedgerDiff {
    /// Number of entries added in B relative to A.
    pub entries_added: usize,
    /// Number of entries removed in B relative to A.
    pub entries_removed: usize,
    /// Operation types of the added entries (for a quick human summary).
    pub added_ops: Vec<String>,
}

/// A full structural diff between two AURA files.
#[derive(Debug, PartialEq, Eq)]
pub struct DiffReport {
    /// `(major, minor)` version of file A.
    pub version_a: (u16, u16),
    /// `(major, minor)` version of file B.
    pub version_b: (u16, u16),
    /// Semantic DAG differences.
    pub dag: DagDiff,
    /// Record layout differences.
    pub records: RecordsDiff,
    /// Provenance ledger differences.
    pub ledger: LedgerDiff,
    /// Whether the embedded WASM bootstrap blob changed.
    pub bootstrap_changed: bool,
}

// ---------------------------------------------------------------------------
// Nodes keyed by id
// ---------------------------------------------------------------------------

/// The last node of `s` with id `id`: the one a map keyed by id keeps.
pub open spec fn last_with(s: Seq<NodeView>, id: u32) -> Option<NodeView>
    decreases s.len(),
{
    if s.len() == 0 {
        None
    } else if s.last().id == id {
        Some(s.last())
    } else {
        last_with(s.drop_last(), id)
    }
}

/// Some node of `s` has id `id`.
pub open spec fn has_id(s: Seq<NodeView>, id: u32) -> bool {
    exists|i: int| 0 <= i < s.len() && #[trigger] s[i].id == id
}

proof fn lemma_last_with(s: Seq<NodeView>, id: u32)
    ensures
        last_with(s, id) is Some <==> has_id(s, id),
        last_with(s, id) matches Some(n) ==> n.id == id,
    decreases s.len(),
{
    if s.len() > 0 {
        let init = s.drop_last();
        lemma_last_with(init, id);
        if has_id(init, id) {
            let i = choose|i: int| 0 <= i < init.len() && #[trigger] init[i].id == id;
            assert(s[i] == init[i]);
        }
        if has_id(s, id) && s.last().id != id {
            let i = choose|i: int| 0 <= i < s.len() && #[trigger] s[i].id == id;
            assert(i < s.len() - 1);
            assert(init[i] == s[i]);
        }
        if s.last().id == id {
            assert(s[s.len() - 1].id == id);
        }
    }
}

/// The ids of `s`, each once, in increasing order.
fn sorted_ids(nodes: &Vec<ConceptNode>) -> (ids: Vec<u32>)
    ensures
        forall|i: int, j: int| 0 <= i < j < ids@.len() ==> ids@[i] < ids@[j],
        forall|id: u32|
            ids@.contains(id) <==> has_id(nodes@.map_values(|n: ConceptNode| n@), id),
{
    let ghost s = nodes@.map_values(|n: ConceptNode| n@);
    let mut ids: Vec<u32> = Vec::new();
    let mut last: u32 = 0;
    loop
        invariant
            s == nodes@.map_values(|n: ConceptNode| n@),
            forall|i: int, j: int| 0 <= i < j < ids@.len() ==> ids@[i] < ids@[j],
            forall|k: int| 0 <= k < ids@.len() ==> has_id(s, #[trigger] ids@[k]),
            ids@.len() > 0 ==> last == ids@.last(),
            forall|id: u32|
                has_id(s, id) && (ids@.len() > 0 && id <= last) ==> #[trigger] ids@.contains(id),
            ids@.len() <= nodes@.len(),
        ensures
            forall|i: int, j: int| 0 <= i < j < ids@.len() ==> ids@[i] < ids@[j],
            forall|id: u32| ids@.contains(id) <==> has_id(s, id),
        decreases nodes@.len() - ids@.len(),
    {
        let mut found = false;
        let mut best: u32 = 0;
        let mut i: usize = 0;
        while i < nodes.len()
            invariant
                s == nodes@.map_values(|n: ConceptNode| n@),
                i <= nodes@.len(),
                found ==> has_id(s, best) && (ids@.len() == 0 || best > last),
                forall|k: int|
                    0 <= k < i && (ids@.len() == 0 || #[trigger] s[k].id > last) ==> found && best
                        <= s[k].id,
            decreases nodes@.len() - i,
        {
            let id = nodes[i].id;
            assert(s[i as int].id == id);
            if (ids.len() == 0 || id > last) && (!found || id < best) {
                found = true;
                best = id;
            }
            i = i + 1;
        }
        if !found {
            assert forall|id: u32| #[trigger] ids@.contains(id) <==> has_id(s, id) by {
                if has_id(s, id) && !ids@.contains(id) {
                    let k = choose|k: int| 0 <= k < s.len() && #[trigger] s[k].id == id;
                    assert(s[k].id == id);
                }
                if ids@.contains(id) {
                    let k = choose|k: int| 0 <= k < ids@.len() && ids@[k] == id;
                    assert(has_id(s, ids@[k]));
                }
            }
            break;
        }
        let ghost old_ids = ids@;
        let ghost old_last = last;
        proof {
            assert forall|k: int| 0 <= k < old_ids.len() implies old_ids[k] < best by {
                if old_ids.len() > 0 {
                    assert(old_ids[k] <= old_ids.last());
                }
            }
            assert(!old_ids.contains(best));
            // ids stay distinct node ids, so there are no more of them than nodes.
            let t = old_ids.push(best);
            assert forall|a: int, b: int| 0 <= a < b < t.len() implies t[a] != t[b] by {}
            assert forall|k: int| 0 <= k < t.len() implies s.map_values(|n: NodeView| n.id).contains(
                #[trigger] t[k],
            ) by {
                let w = choose|w: int| 0 <= w < s.len() && #[trigger] s[w].id == t[k];
                assert(s.map_values(|n: NodeView| n.id)[w] == t[k]);
            }
            lemma_distinct_within(t, s.map_values(|n: NodeView| n.id));
        }
        ids.push(best);
        last = best;
        proof {
            assert forall|id: u32| has_id(s, id) && (ids@.len() > 0 && id <= last) implies #[trigger] ids@.contains(id) by {
                if id == best {
                    assert(ids@[ids@.len() - 1] == best);
                } else if old_ids.len() > 0 && id <= old_last {
                    assert(old_ids.contains(id));
                    let k = choose|k: int| 0 <= k < old_ids.len() && old_ids[k] == id;
                    assert(ids@[k] == id);
                } else {
                    let k = choose|k: int| 0 <= k < s.len() && #[trigger] s[k].id == id;
                    assert(s[k].id == id);
                    assert(best <= id);
                }
            }
        }
    }
    ids
}

/// A list of distinct values taken from `b` is no longer than `b`.
proof fn lemma_distinct_within(a: Seq<u32>, b: Seq<u32>)
    requires
        a.no_duplicates(),
        forall|k: int| 0 <= k < a.len() ==> b.contains(#[trigger] a[k]),
    ensures
        a.len() <= b.len(),
{
    a.unique_seq_to_set();
    b.lemma_cardinality_of_set();
    assert(a.to_set().subset_of(b.to_set()));
    vstd::set_lib::lemma_len_subset(a.to_set(), b.to_set());
}

/// Index of the last node with id `id`.
fn last_index(nodes: &Vec<ConceptNode>, id: u32) -> (r: Option<usize>)
    ensures
        match last_with(nodes@.map_values(|n: ConceptNode| n@), id) {
            None => r is None,
            Some(n) => r matches Some(k) && k < nodes@.len() && nodes@[k as int]@ == n,
        },
{
    let ghost s = nodes@.map_values(|n: ConceptNode| n@);
    let mut i: usize = nodes.len();
    assert(s.subrange(0, s.len() as int) =~= s);
    while i > 0
        invariant
            s == nodes@.map_values(|n: ConceptNode| n@),
            i <= nodes@.len(),
            last_with(s, id) == last_with(s.subrange(0, i as int), id),
        decreases i,
    {
        let ghost pre = s.subrange(0, i as int);
        assert(pre.drop_last() =~= s.subrange(0, i - 1));
        assert(pre.last() == s[i - 1]);
        if nodes[i - 1].id == id {
            return Some(i - 1);
        }
        i = i - 1;
    }
    None
}

// ---------------------------------------------------------------------------
// Edges
// ---------------------------------------------------------------------------

/// An edge as the value it is compared by.
pub open spec fn edge_key(e: EdgeView) -> (u32, u32, Seq<char>) {
    (e.source, e.target, e.relationship)
}

/// Some edge of `es` has key `k`.
pub open spec fn has_edge(es: Seq<EdgeView>, k: (u32, u32, Seq<char>)) -> bool {
    exists|i: int| 0 <= i < es.len() && edge_key(#[trigger] es[i]) == k
}

/// An edge triple as a value.
pub open spec fn triple_view(t: (u32, u32, String)) -> (u32, u32, Seq<char>) {
    (t.0, t.1, t.2@)
}

/// A list of edge triples as values.
pub open spec fn triples(out: Seq<(u32, u32, String)>) -> Seq<(u32, u32, Seq<char>)> {
    out.map_values(|t: (u32, u32, String)| triple_view(t))
}

/// `out` lists, each once, the edges `b` has and `a` lacks.
pub open spec fn edges_only_in(b: Seq<EdgeView>, a: Seq<EdgeView>, out: Seq<(u32, u32, Seq<char>)>) -> bool {
    &&& out.no_duplicates()
    &&& forall|k: (u32, u32, Seq<char>)| #[trigger] out.contains(k) <==> has_edge(b, k) && !has_edge(a, k)
}

fn has_edge_exec(es: &Vec<ConceptEdge>, source: u32, target: u32, rel: &String) -> (r: bool)
    ensures
        r == has_edge(es@.map_values(|e: ConceptEdge| e@), (source, target, rel@)),
{
    let ghost s = es@.map_values(|e: ConceptEdge| e@);
    let mut i: usize = 0;
    while i < es.len()
        invariant
            s == es@.map_values(|e: ConceptEdge| e@),
            i <= es@.len(),
            forall|k: int| 0 <= k < i ==> edge_key(#[trigger] s[k]) != (source, target, rel@),
        decreases es@.len() - i,
    {
        let e = &es[i];
        assert(s[i as int] == e@);
        if e.source == source && e.target == target && e.relationship == *rel {
            return true;
        }
        i = i + 1;
    }
    false
}

fn has_triple(out: &Vec<(u32, u32, String)>, source: u32, target: u32, rel: &String) -> (r: bool)
    ensures
        r == triples(out@).contains((source, target, rel@)),
{
    let ghost s = triples(out@);
    let mut i: usize = 0;
    while i < out.len()
        invariant
            s == triples(out@),
            i <= out@.len(),
            forall|k: int| 0 <= k < i ==> #[trigger] s[k] != (source, target, rel@),
        decreases out@.len() - i,
    {
        let t = &out[i];
        assert(s[i as int] == triple_view(*t));
        if t.0 == source && t.1 == target && t.2 == *rel {
            return true;
        }
        i = i + 1;
    }
    false
}

/// The edges of `b` missing from `a`, each once, in the order `b` lists them.
fn edges_only(b: &Vec<ConceptEdge>, a: &Vec<ConceptEdge>) -> (out: Vec<(u32, u32, String)>)
    ensures
        edges_only_in(
            b@.map_values(|e: ConceptEdge| e@),
            a@.map_values(|e: ConceptEdge| e@),
            triples(out@),
        ),
{
    let ghost bs = b@.map_values(|e: ConceptEdge| e@);
    let ghost as_ = a@.map_values(|e: ConceptEdge| e@);
    let mut out: Vec<(u32, u32, String)> = Vec::new();
    let mut j: usize = 0;
    while j < b.len()
        invariant
            bs == b@.map_values(|e: ConceptEdge| e@),
            as_ == a@.map_values(|e: ConceptEdge| e@),
            j <= b@.len(),
            triples(out@).no_duplicates(),
            forall|k: (u32, u32, Seq<char>)|
                #[trigger] triples(out@).contains(k) ==> has_edge(
                    bs,
                    k,
                ) && !has_edge(as_, k),
            forall|m: int|
                0 <= m < j && !has_edge(as_, edge_key(#[trigger] bs[m])) ==> triples(out@).contains(edge_key(bs[m])),
        decreases b@.len() - j,
    {
        let e = &b[j];
        assert(bs[j as int] == e@);
        let ghost ov = triples(out@);
        if !has_edge_exec(a, e.source, e.target, &e.relationship) && !has_triple(
            &out,
            e.source,
            e.target,
            &e.relationship,
        ) {
            out.push((e.source, e.target, e.relationship.clone()));
            proof {
                let nv = triples(out@);
                assert(nv =~= ov.push(edge_key(e@)));
                assert(has_edge(bs, edge_key(e@)));
                assert forall|k: (u32, u32, Seq<char>)| #[trigger] nv.contains(k) implies has_edge(
                    bs,
                    k,
                ) && !has_edge(as_, k) by {
                    if k != edge_key(e@) {
                        let w = choose|w: int| 0 <= w < nv.len() && nv[w] == k;
                        assert(ov[w] == k);
                        assert(ov.contains(k));
                    }
                }
                assert forall|m: int|
                    0 <= m <= j && !has_edge(as_, edge_key(#[trigger] bs[m])) implies nv.contains(
                    edge_key(bs[m]),
                ) by {
                    if m < j {
                        let w = choose|w: int| 0 <= w < ov.len() && ov[w] == edge_key(bs[m]);
                        assert(nv[w] == ov[w]);
                    } else {
                        assert(nv[ov.len() as int] == edge_key(e@));
                    }
                }
            }
        } else {
            assert(has_edge(as_, edge_key(e@)) ==> has_edge(as_, edge_key(bs[j as int])));
        }
        j = j + 1;
    }
    proof {
        let ov = triples(out@);
        assert forall|k: (u32, u32, Seq<char>)| has_edge(bs, k) && !has_edge(as_, k) implies #[trigger] ov.contains(k) by {
            let m = choose|m: int| 0 <= m < bs.len() && edge_key(#[trigger] bs[m]) == k;
        }
    }
    out
}


// ---------------------------------------------------------------------------
// Nodes
// ---------------------------------------------------------------------------

/// A `(id, label)` pair as a value.
pub open spec fn pairs(out: Seq<(u32, String)>) -> Seq<(u32, Seq<char>)> {
    out.map_values(|p: (u32, String)| (p.0, p.1@))
}

/// `out` lists, in increasing id order, the ids `b` has and `a` lacks, each
/// with the label of `b`'s node.
pub open spec fn nodes_only_in(b: Seq<NodeView>, a: Seq<NodeView>, out: Seq<(u32, Seq<char>)>) -> bool {
    &&& forall|i: int, j: int| 0 <= i < j < out.len() ==> out[i].0 < out[j].0
    &&& forall|k: int|
        0 <= k < out.len() ==> (last_with(b, #[trigger] out[k].0) matches Some(n) && n.label
            == out[k].1) && !has_id(a, out[k].0)
    &&& forall|id: u32|
        has_id(b, id) && !has_id(a, id) ==> exists|k: int| 0 <= k < out.len() && #[trigger] out[k].0 == id
}

/// The abstract value of a [`NodeChange`].
pub struct ChangeView {
    pub id: u32,
    pub label: Seq<char>,
    pub old_confidence_bits: u32,
    pub new_confidence_bits: u32,
}

impl View for NodeChange {
    type V = ChangeView;

    open spec fn view(&self) -> ChangeView {
        ChangeView {
            id: self.id,
            label: self.label@,
            old_confidence_bits: self.old_confidence_bits,
            new_confidence_bits: self.new_confidence_bits,
        }
    }
}

/// Node `o` of A became node `n` of B and is reported as changed (`listed`)
/// or not: a node is changed when the confidence comparison says so, or its
/// label or bitmask differ.
pub open spec fn change_reported<F: Fn(u32, u32) -> bool>(
    f: F,
    o: NodeView,
    n: NodeView,
    listed: bool,
) -> bool {
    if listed {
        call_ensures(f, (o.confidence_bits, n.confidence_bits), true) || o.label != n.label
            || o.bitmask_rle != n.bitmask_rle
    } else {
        call_ensures(f, (o.confidence_bits, n.confidence_bits), false) && o.label == n.label
            && o.bitmask_rle == n.bitmask_rle
    }
}

/// `out` lists, in increasing id order, the ids both graphs have whose node
/// changed, with B's label and both confidences.
pub open spec fn nodes_changed_in<F: Fn(u32, u32) -> bool>(
    a: Seq<NodeView>,
    b: Seq<NodeView>,
    f: F,
    out: Seq<ChangeView>,
) -> bool {
    &&& forall|i: int, j: int| 0 <= i < j < out.len() ==> out[i].id < out[j].id
    &&& forall|k: int|
        0 <= k < out.len() ==> (last_with(a, #[trigger] out[k].id) matches Some(o) && (last_with(
            b,
            out[k].id,
        ) matches Some(n) && out[k].label == n.label && out[k].old_confidence_bits
            == o.confidence_bits && out[k].new_confidence_bits == n.confidence_bits
            && change_reported(f, o, n, true)))
    &&& forall|id: u32|
        has_id(a, id) && has_id(b, id) && !(exists|k: int| 0 <= k < out.len() && #[trigger] out[k].id == id)
            ==> change_reported(f, last_with(a, id).unwrap(), last_with(b, id).unwrap(), false)
}

/// A list of node changes as values.
pub open spec fn change_views(s: Seq<NodeChange>) -> Seq<ChangeView> {
    s.map_values(|c: NodeChange| c@)
}

/// The ids of `ids` that `b` has and `a` lacks, each with `b`'s label.
pub open spec fn only_list(ids: Seq<u32>, b: Seq<NodeView>, a: Seq<NodeView>) -> Seq<(u32, Seq<char>)>
    decreases ids.len(),
{
    if ids.len() == 0 {
        Seq::empty()
    } else {
        only_list(ids.drop_last(), b, a) + if !has_id(a, ids.last()) {
            seq![(ids.last(), last_with(b, ids.last()).unwrap().label)]
        } else {
            Seq::empty()
        }
    }
}

/// Whether the node `id` is reported as changed, `differs` being what the
/// confidence comparison answered for it.
#[verifier::opaque]
pub open spec fn is_changed(a: Seq<NodeView>, b: Seq<NodeView>, id: u32, differs: bool) -> bool {
    has_id(a, id) && (differs || last_with(a, id).unwrap().label != last_with(b, id).unwrap().label
        || last_with(a, id).unwrap().bitmask_rle != last_with(b, id).unwrap().bitmask_rle)
}

/// The change entry of node `id`.
#[verifier::opaque]
pub open spec fn change_of(a: Seq<NodeView>, b: Seq<NodeView>, id: u32) -> ChangeView {
    ChangeView {
        id,
        label: last_with(b, id).unwrap().label,
        old_confidence_bits: last_with(a, id).unwrap().confidence_bits,
        new_confidence_bits: last_with(b, id).unwrap().confidence_bits,
    }
}

/// The changed nodes among `ids`, `res[m]` being the comparison's answer
/// for `ids[m]`.
pub open spec fn changed_list(ids: Seq<u32>, res: Seq<bool>, a: Seq<NodeView>, b: Seq<NodeView>) -> Seq<ChangeView>
    decreases ids.len(),
{
    if ids.len() == 0 {
        Seq::empty()
    } else {
        changed_list(ids.drop_last(), res.drop_last(), a, b) + if is_changed(
            a,
            b,
            ids.last(),
            res.last(),
        ) {
            seq![change_of(a, b, ids.last())]
        } else {
            Seq::empty()
        }
    }
}

/// Every element of `only_list` comes from `ids`.
proof fn lemma_only_list(ids: Seq<u32>, b: Seq<NodeView>, a: Seq<NodeView>)
    requires
        forall|p: int, q: int| 0 <= p < q < ids.len() ==> ids[p] < ids[q],
        forall|k: int| 0 <= k < ids.len() ==> has_id(b, #[trigger] ids[k]),
    ensures
        ({
            let out = only_list(ids, b, a);
            &&& forall|p: int, q: int| 0 <= p < q < out.len() ==> out[p].0 < out[q].0
            &&& forall|k: int| 0 <= k < out.len() ==> #[trigger] ids.contains(out[k].0)
            &&& forall|k: int|
                0 <= k < out.len() ==> (last_with(b, #[trigger] out[k].0) matches Some(n) && n.label
                    == out[k].1) && !has_id(a, out[k].0)
            &&& forall|m: int|
                0 <= m < ids.len() && !has_id(a, #[trigger] ids[m]) ==> exists|k: int|
                    0 <= k < out.len() && out[k].0 == ids[m]
        }),
    decreases ids.len(),
{
    if ids.len() > 0 {
        let init = ids.drop_last();
        let x = ids.last();
        assert forall|k: int| 0 <= k < init.len() implies has_id(b, #[trigger] init[k]) by {
            assert(init[k] == ids[k]);
        }
        lemma_only_list(init, b, a);
        let o1 = only_list(init, b, a);
        let out = only_list(ids, b, a);
        lemma_last_with(b, x);
        assert(has_id(b, ids[ids.len() - 1]));
        assert forall|k: int| 0 <= k < o1.len() implies o1[k].0 < x by {
            assert(init.contains(o1[k].0));
            let m = choose|m: int| 0 <= m < init.len() && init[m] == o1[k].0;
            assert(ids[m] == init[m]);
        }
        assert forall|k: int| 0 <= k < out.len() implies #[trigger] ids.contains(out[k].0) by {
            if k < o1.len() {
                assert(out[k] == o1[k]);
                assert(init.contains(o1[k].0));
                let m = choose|m: int| 0 <= m < init.len() && init[m] == o1[k].0;
                assert(ids[m] == init[m]);
            } else {
                assert(ids[ids.len() - 1] == x);
            }
        }
        assert forall|k: int|
            0 <= k < out.len() implies (last_with(b, #[trigger] out[k].0) matches Some(n) && n.label
                == out[k].1) && !has_id(a, out[k].0) by {
            if k < o1.len() {
                assert(out[k] == o1[k]);
            }
        }
        assert forall|m: int|
            0 <= m < ids.len() && !has_id(a, #[trigger] ids[m]) implies exists|k: int|
                0 <= k < out.len() && out[k].0 == ids[m] by {
            if m < init.len() {
                assert(init[m] == ids[m]);
                let k = choose|k: int| 0 <= k < o1.len() && o1[k].0 == init[m];
                assert(out[k] == o1[k]);
            } else {
                assert(out[o1.len() as int].0 == x);
            }
        }
    }
}

proof fn lemma_change_of_id(a: Seq<NodeView>, b: Seq<NodeView>, id: u32)
    ensures
        change_of(a, b, id).id == id,
{
    reveal(change_of);
}

/// Every element of `changed_list` is the change entry of a changed id.
proof fn lemma_cl_members(ids: Seq<u32>, res: Seq<bool>, a: Seq<NodeView>, b: Seq<NodeView>)
    requires
        res.len() == ids.len(),
    ensures
        forall|k: int|
            0 <= k < changed_list(ids, res, a, b).len() ==> exists|m: int|
                0 <= m < ids.len() && is_changed(a, b, ids[m], res[m]) && #[trigger] changed_list(
                    ids,
                    res,
                    a,
                    b,
                )[k] == change_of(a, b, ids[m]),
    decreases ids.len(),
{
    if ids.len() > 0 {
        let init = ids.drop_last();
        let rinit = res.drop_last();
        lemma_cl_members(init, rinit, a, b);
        let o1 = changed_list(init, rinit, a, b);
        let out = changed_list(ids, res, a, b);
        assert forall|k: int| 0 <= k < out.len() implies exists|m: int|
            0 <= m < ids.len() && is_changed(a, b, ids[m], res[m]) && #[trigger] out[k] == change_of(a, b, ids[m]) by {
            if k < o1.len() {
                assert(out[k] == o1[k]);
                let m = choose|m: int|
                    0 <= m < init.len() && is_changed(a, b, init[m], rinit[m]) && #[trigger] o1[k]
                        == change_of(a, b, init[m]);
                assert(ids[m] == init[m] && res[m] == rinit[m]);
            } else {
                assert(ids[ids.len() - 1] == ids.last() && res[res.len() - 1] == res.last());
            }
        }
    }
}

/// `changed_list` lists ids in increasing order.
proof fn lemma_cl_sorted(ids: Seq<u32>, res: Seq<bool>, a: Seq<NodeView>, b: Seq<NodeView>)
    requires
        res.len() == ids.len(),
        forall|p: int, q: int| 0 <= p < q < ids.len() ==> ids[p] < ids[q],
    ensures
        forall|p: int, q: int|
            0 <= p < q < changed_list(ids, res, a, b).len() ==> changed_list(ids, res, a, b)[p].id
                < changed_list(ids, res, a, b)[q].id,
    decreases ids.len(),
{
    if ids.len() > 0 {
        let init = ids.drop_last();
        let rinit = res.drop_last();
        lemma_cl_sorted(init, rinit, a, b);
        lemma_cl_members(init, rinit, a, b);
        let o1 = changed_list(init, rinit, a, b);
        let out = changed_list(ids, res, a, b);
        let x = ids.last();
        lemma_change_of_id(a, b, x);
        assert forall|k: int| 0 <= k < o1.len() implies o1[k].id < x by {
            let m = choose|m: int|
                0 <= m < init.len() && is_changed(a, b, init[m], rinit[m]) && #[trigger] o1[k]
                    == change_of(a, b, init[m]);
            lemma_change_of_id(a, b, init[m]);
            assert(ids[m] == init[m]);
            assert(ids[ids.len() - 1] == x);
        }
        assert forall|p: int, q: int| 0 <= p < q < out.len() implies out[p].id < out[q].id by {
            assert(out[p] == o1[p]);
            if q < o1.len() {
                assert(out[q] == o1[q]);
            }
        }
    }
}

/// Every changed id is listed.
proof fn lemma_cl_complete(ids: Seq<u32>, res: Seq<bool>, a: Seq<NodeView>, b: Seq<NodeView>)
    requires
        res.len() == ids.len(),
    ensures
        forall|m: int|
            0 <= m < ids.len() && is_changed(a, b, #[trigger] ids[m], res[m]) ==> exists|k: int|
                0 <= k < changed_list(ids, res, a, b).len() && changed_list(ids, res, a, b)[k].id
                    == ids[m],
    decreases ids.len(),
{
    if ids.len() > 0 {
        let init = ids.drop_last();
        let rinit = res.drop_last();
        lemma_cl_complete(init, rinit, a, b);
        let o1 = changed_list(init, rinit, a, b);
        let out = changed_list(ids, res, a, b);
        lemma_change_of_id(a, b, ids.last());
        assert forall|m: int|
            0 <= m < ids.len() && is_changed(a, b, #[trigger] ids[m], res[m]) implies exists|k: int|
                0 <= k < out.len() && out[k].id == ids[m] by {
            if m < init.len() {
                assert(init[m] == ids[m] && rinit[m] == res[m]);
                let k = choose|k: int| 0 <= k < o1.len() && o1[k].id == init[m];
                assert(out[k] == o1[k]);
            } else {
                assert(res[m] == res.last() && ids[m] == ids.last());
                assert(out[o1.len() as int].id == ids[m]);
            }
        }
    }
}

/// No unchanged id is listed.
proof fn lemma_cl_sound(ids: Seq<u32>, res: Seq<bool>, a: Seq<NodeView>, b: Seq<NodeView>)
    requires
        res.len() == ids.len(),
        forall|p: int, q: int| 0 <= p < q < ids.len() ==> ids[p] < ids[q],
    ensures
        forall|m: int|
            0 <= m < ids.len() && !is_changed(a, b, #[trigger] ids[m], res[m]) ==> !(exists|k: int|
                0 <= k < changed_list(ids, res, a, b).len() && changed_list(ids, res, a, b)[k].id
                    == ids[m]),
    decreases ids.len(),
{
    if ids.len() > 0 {
        let init = ids.drop_last();
        let rinit = res.drop_last();
        lemma_cl_sound(init, rinit, a, b);
        lemma_cl_members(init, rinit, a, b);
        let o1 = changed_list(init, rinit, a, b);
        let out = changed_list(ids, res, a, b);
        let x = ids.last();
        lemma_change_of_id(a, b, x);
        assert forall|k: int| 0 <= k < o1.len() implies o1[k].id < x by {
            let m = choose|m: int|
                0 <= m < init.len() && is_changed(a, b, init[m], rinit[m]) && #[trigger] o1[k]
                    == change_of(a, b, init[m]);
            lemma_change_of_id(a, b, init[m]);
            assert(ids[m] == init[m]);
            assert(ids[ids.len() - 1] == x);
        }
        assert forall|m: int|
            0 <= m < ids.len() && !is_changed(a, b, #[trigger] ids[m], res[m]) implies !(exists|k: int|
                0 <= k < out.len() && out[k].id == ids[m]) by {
            if exists|k: int| 0 <= k < out.len() && out[k].id == ids[m] {
                let k = choose|k: int| 0 <= k < out.len() && out[k].id == ids[m];
                if m < init.len() {
                    assert(init[m] == ids[m] && rinit[m] == res[m]);
                    assert(ids[m] < x) by {
                        assert(ids[ids.len() - 1] == x);
                    }
                    if k < o1.len() {
                        assert(out[k] == o1[k]);
                    }
                } else {
                    assert(res[m] == res.last() && ids[m] == x);
                    assert(k < o1.len());
                    assert(out[k] == o1[k]);
                }
            }
        }
    }
}

/// Nodes of `b` missing from `a`, and nodes of both that changed.
fn added_and_changed<F: Fn(u32, u32) -> bool>(
    a: &Vec<ConceptNode>,
    b: &Vec<ConceptNode>,
    confidence_differs: &F,
) -> (r: (Vec<(u32, String)>, Vec<NodeChange>))
    requires
        forall|x: u32, y: u32| confidence_differs.requires((x, y)),
    ensures
        nodes_only_in(
            b@.map_values(|n: ConceptNode| n@),
            a@.map_values(|n: ConceptNode| n@),
            pairs(r.0@),
        ),
        nodes_changed_in(
            a@.map_values(|n: ConceptNode| n@),
            b@.map_values(|n: ConceptNode| n@),
            *confidence_differs,
            change_views(r.1@),
        ),
{
    let ghost av = a@.map_values(|n: ConceptNode| n@);
    let ghost bv = b@.map_values(|n: ConceptNode| n@);
    let ghost f = *confidence_differs;
    let ids = sorted_ids(b);
    let mut added: Vec<(u32, String)> = Vec::new();
    let mut changed: Vec<NodeChange> = Vec::new();
    let ghost mut res: Seq<bool> = Seq::empty();
    let mut i: usize = 0;
    assert(pairs(added@) =~= Seq::<(u32, Seq<char>)>::empty());
    assert(change_views(changed@) =~= Seq::<ChangeView>::empty());
    while i < ids.len()
        invariant
            av == a@.map_values(|n: ConceptNode| n@),
            bv == b@.map_values(|n: ConceptNode| n@),
            f == *confidence_differs,
            forall|x: u32, y: u32| confidence_differs.requires((x, y)),
            forall|id: u32| ids@.contains(id) <==> has_id(bv, id),
            i <= ids@.len(),
            res.len() == i,
            pairs(added@) == only_list(ids@.subrange(0, i as int), bv, av),
            change_views(changed@) == changed_list(ids@.subrange(0, i as int), res, av, bv),
            forall|m: int|
                0 <= m < i && has_id(av, #[trigger] ids@[m]) ==> call_ensures(
                    f,
                    (last_with(av, ids@[m]).unwrap().confidence_bits, last_with(bv, ids@[m]).unwrap().confidence_bits),
                    res[m],
                ),
        decreases ids@.len() - i,
    {
        let id = ids[i];
        proof {
            lemma_last_with(bv, id);
            lemma_last_with(av, id);
            assert(ids@.contains(id));
        }
        let kb = match last_index(b, id) {
            Some(k) => k,
            None => {
                assert(false);
                0
            },
        };
        let ghost pa = pairs(added@);
        let ghost cv = change_views(changed@);
        let ghost pre = ids@.subrange(0, i as int);
        let ghost post = ids@.subrange(0, i as int + 1);
        assert(post.drop_last() =~= pre);
        assert(post.last() == id);
        match last_index(a, id) {
            None => {
                added.push((id, b[kb].label.clone()));
                let ghost old_res = res;
                proof {
                    res = res.push(false);
                    assert(res.drop_last() =~= old_res);
                    assert(pairs(added@) =~= pa.push((id, bv[kb as int].label)));
                    reveal(is_changed);
                    assert(!is_changed(av, bv, id, false));
                    assert(change_views(changed@) =~= cv);
                }
            },
            Some(ka) => {
                let o = &a[ka];
                let n = &b[kb];
                assert(av[ka as int] == o@ && bv[kb as int] == n@);
                let differs = confidence_differs(o.confidence_bits, n.confidence_bits);
                let ghost old_res = res;
                proof {
                    res = res.push(differs);
                    assert(res.drop_last() =~= old_res);
                }
                if differs || o.label != n.label || !bytes_eq(
                    o.bitmask_rle.as_slice(),
                    n.bitmask_rle.as_slice(),
                ) {
                    let c = NodeChange {
                        id,
                        label: n.label.clone(),
                        old_confidence_bits: o.confidence_bits,
                        new_confidence_bits: n.confidence_bits,
                    };
                    let ghost cview = c@;
                    changed.push(c);
                    proof {
                        assert(change_views(changed@) =~= cv.push(cview));
                        reveal(is_changed);
                        reveal(change_of);
                        assert(is_changed(av, bv, id, differs));
                        assert(cview == change_of(av, bv, id));
                    }
                } else {
                    proof {
                        reveal(is_changed);
                        assert(!is_changed(av, bv, id, differs));
                        assert(change_views(changed@) =~= cv);
                    }
                }
                proof {
                    assert(pairs(added@) =~= pa);
                }
            },
        }
        proof {
            assert forall|m: int|
                0 <= m < i + 1 && has_id(av, #[trigger] ids@[m]) implies call_ensures(
                    f,
                    (last_with(av, ids@[m]).unwrap().confidence_bits, last_with(bv, ids@[m]).unwrap().confidence_bits),
                    res[m],
                ) by {
            }
        }
        i = i + 1;
    }
    proof {
        assert(ids@.subrange(0, ids@.len() as int) =~= ids@);
        assert forall|k: int| 0 <= k < ids@.len() implies has_id(bv, #[trigger] ids@[k]) by {
            assert(ids@.contains(ids@[k]));
        }
        lemma_only_list(ids@, bv, av);
        lemma_cl_members(ids@, res, av, bv);
        lemma_cl_sorted(ids@, res, av, bv);
        lemma_cl_complete(ids@, res, av, bv);
        lemma_cl_sound(ids@, res, av, bv);
        let po = pairs(added@);
        assert forall|id: u32| has_id(bv, id) && !has_id(av, id) implies exists|k: int|
            0 <= k < po.len() && #[trigger] po[k].0 == id by {
            assert(ids@.contains(id));
            let m = choose|m: int| 0 <= m < ids@.len() && ids@[m] == id;
        }
        assert forall|k: int|
            0 <= k < po.len() implies (last_with(bv, #[trigger] po[k].0) matches Some(n) && n.label
                == po[k].1) && !has_id(av, po[k].0) by {}
        let cvv = change_views(changed@);
        assert forall|k: int|
            0 <= k < cvv.len() implies (last_with(av, #[trigger] cvv[k].id) matches Some(o) && (last_with(
                bv,
                cvv[k].id,
            ) matches Some(n) && cvv[k].label == n.label && cvv[k].old_confidence_bits
                == o.confidence_bits && cvv[k].new_confidence_bits == n.confidence_bits
                && change_reported(f, o, n, true))) by {
            let m = choose|m: int|
                0 <= m < ids@.len() && is_changed(av, bv, ids@[m], res[m]) && #[trigger] cvv[k]
                    == change_of(av, bv, ids@[m]);
            reveal(is_changed);
            reveal(change_of);
            lemma_last_with(av, ids@[m]);
            lemma_last_with(bv, ids@[m]);
            assert(ids@.contains(ids@[m]));
        }
        assert forall|id: u32|
            has_id(av, id) && has_id(bv, id) && !(exists|k: int| 0 <= k < cvv.len() && #[trigger] cvv[k].id == id)
                implies change_reported(f, last_with(av, id).unwrap(), last_with(bv, id).unwrap(), false) by {
            assert(ids@.contains(id));
            let m = choose|m: int| 0 <= m < ids@.len() && ids@[m] == id;
            if is_changed(av, bv, ids@[m], res[m]) {
                let k = choose|k: int| 0 <= k < cvv.len() && cvv[k].id == ids@[m];
            }
            reveal(is_changed);
        }
    }
    (added, changed)
}

/// The nodes of `b` whose id `a` lacks, in increasing id order.
fn nodes_only(b: &Vec<ConceptNode>, a: &Vec<ConceptNode>) -> (out: Vec<(u32, String)>)
    ensures
        nodes_only_in(b@.map_values(|n: ConceptNode| n@), a@.map_values(|n: ConceptNode| n@), pairs(out@)),
{
    let ghost av = a@.map_values(|n: ConceptNode| n@);
    let ghost bv = b@.map_values(|n: ConceptNode| n@);
    let ids = sorted_ids(b);
    let mut out: Vec<(u32, String)> = Vec::new();
    let mut i: usize = 0;
    assert(pairs(out@) =~= Seq::<(u32, Seq<char>)>::empty());
    while i < ids.len()
        invariant
            av == a@.map_values(|n: ConceptNode| n@),
            bv == b@.map_values(|n: ConceptNode| n@),
            forall|id: u32| ids@.contains(id) <==> has_id(bv, id),
            i <= ids@.len(),
            pairs(out@) == only_list(ids@.subrange(0, i as int), bv, av),
        decreases ids@.len() - i,
    {
        let id = ids[i];
        proof {
            lemma_last_with(bv, id);
            lemma_last_with(av, id);
            assert(ids@.contains(id));
        }
        let ghost pa = pairs(out@);
        let ghost pre = ids@.subrange(0, i as int);
        let ghost post = ids@.subrange(0, i as int + 1);
        assert(post.drop_last() =~= pre);
        assert(post.last() == id);
        match last_index(a, id) {
            None => {
                let kb = match last_index(b, id) {
                    Some(k) => k,
                    None => {
                        assert(false);
                        0
                    },
                };
                out.push((id, b[kb].label.clone()));
                assert(pairs(out@) =~= pa.push((id, bv[kb as int].label)));
            },
            Some(_) => {},
        }
        i = i + 1;
    }
    proof {
        assert(ids@.subrange(0, ids@.len() as int) =~= ids@);
        assert forall|k: int| 0 <= k < ids@.len() implies has_id(bv, #[trigger] ids@[k]) by {
            assert(ids@.contains(ids@[k]));
        }
        lemma_only_list(ids@, bv, av);
        let po = pairs(out@);
        assert forall|id: u32| has_id(bv, id) && !has_id(av, id) implies exists|k: int|
            0 <= k < po.len() && #[trigger] po[k].0 == id by {
            assert(ids@.contains(id));
            let m = choose|m: int| 0 <= m < ids@.len() && ids@[m] == id;
        }
    }
    out
}


// ---------------------------------------------------------------------------
// The whole DAG
// ---------------------------------------------------------------------------

/// `d` is the DAG diff of `a` and `b`, `f` deciding whether two confidences
/// differ.
pub open spec fn dag_diff_is<F: Fn(u32, u32) -> bool>(a: DagView, b: DagView, f: F, d: DagDiff) -> bool {
    &&& nodes_only_in(b.nodes, a.nodes, pairs(d.nodes_added@))
    &&& nodes_only_in(a.nodes, b.nodes, pairs(d.nodes_removed@))
    &&& nodes_changed_in(a.nodes, b.nodes, f, change_views(d.nodes_changed@))
    &&& edges_only_in(b.edges, a.edges, triples(d.edges_added@))
    &&& edges_only_in(a.edges, b.edges, triples(d.edges_removed@))
}

fn diff_dag<F: Fn(u32, u32) -> bool>(a: &SemanticDAG, b: &SemanticDAG, confidence_differs: &F) -> (d: DagDiff)
    requires
        forall|x: u32, y: u32| confidence_differs.requires((x, y)),
    ensures
        dag_diff_is(a@, b@, *confidence_differs, d),
{
    let (nodes_added, nodes_changed) = added_and_changed(&a.nodes, &b.nodes, confidence_differs);
    let nodes_removed = nodes_only(&a.nodes, &b.nodes);
    let edges_added = edges_only(&b.edges, &a.edges);
    let edges_removed = edges_only(&a.edges, &b.edges);
    DagDiff { nodes_added, nodes_removed, nodes_changed, edges_added, edges_removed }
}

// ---------------------------------------------------------------------------
// Records
// ---------------------------------------------------------------------------

/// Number of children of `s` with type tag `t`.
pub open spec fn tag_count(s: Seq<ChildView>, t: u8) -> nat
    decreases s.len(),
{
    if s.len() == 0 {
        0
    } else {
        tag_count(s.drop_last(), t) + if child_tag(s.last()) == t {
            1nat
        } else {
            0nat
        }
    }
}

/// The per-tag count differences for the tags below `n`, in tag order.
pub open spec fn type_diffs(a: Seq<ChildView>, b: Seq<ChildView>, n: nat) -> Seq<RecordTypeDiff>
    decreases n,
{
    if n == 0 {
        Seq::empty()
    } else {
        let t = (n - 1) as u8;
        type_diffs(a, b, (n - 1) as nat) + if tag_count(a, t) != tag_count(b, t) {
            seq![RecordTypeDiff { type_tag: t, a: tag_count(a, t) as usize, b: tag_count(b, t) as usize }]
        } else {
            Seq::empty()
        }
    }
}

fn count_tag(children: &Vec<SceneChild>, t: u8) -> (n: usize)
    ensures
        n == tag_count(children@.map_values(|c: SceneChild| c@), t),
{
    let ghost s = children@.map_values(|c: SceneChild| c@);
    let mut n: usize = 0;
    let mut i: usize = 0;
    while i < children.len()
        invariant
            s == children@.map_values(|c: SceneChild| c@),
            i <= s.len(),
            n <= i,
            n == tag_count(s.subrange(0, i as int), t),
        decreases s.len() - i,
    {
        assert(s.subrange(0, i + 1).drop_last() =~= s.subrange(0, i as int));
        assert(s[i as int] == children@[i as int]@);
        if children[i].type_tag() == t {
            n = n + 1;
        }
        i = i + 1;
    }
    assert(s.subrange(0, s.len() as int) =~= s);
    n
}

fn diff_records(a: &AuraFile, b: &AuraFile) -> (r: RecordsDiff)
    ensures
        r.by_type@ == type_diffs(a.scene@, b.scene@, 256),
{
    let mut by_type: Vec<RecordTypeDiff> = Vec::new();
    let mut t: u16 = 0;
    while t < 256
        invariant
            t <= 256,
            by_type@ == type_diffs(a.scene@, b.scene@, t as nat),
        decreases 256 - t,
    {
        let tag = t as u8;
        let na = count_tag(&a.scene.children, tag);
        let nb = count_tag(&b.scene.children, tag);
        if na != nb {
            by_type.push(RecordTypeDiff { type_tag: tag, a: na, b: nb });
        }
        t = t + 1;
    }
    RecordsDiff { by_type }
}

// ---------------------------------------------------------------------------
// Ledger
// ---------------------------------------------------------------------------

/// What identifies a ledger entry across files: its operation, software
/// and resulting hash.
pub open spec fn entry_key(e: EntryView) -> (OpType, Seq<char>, Seq<u8>) {
    (e.op, e.software, e.resulting_hash)
}

/// The keys of a list of entries.
pub open spec fn entry_keys(es: Seq<EntryView>) -> Seq<(OpType, Seq<char>, Seq<u8>)> {
    es.map_values(|e: EntryView| entry_key(e))
}

/// Number of distinct keys of `ka` that `kb` lacks.
pub open spec fn removed_count(
    ka: Seq<(OpType, Seq<char>, Seq<u8>)>,
    kb: Seq<(OpType, Seq<char>, Seq<u8>)>,
) -> nat
    decreases ka.len(),
{
    if ka.len() == 0 {
        0
    } else {
        removed_count(ka.drop_last(), kb) + if !ka.drop_last().contains(ka.last()) && !kb.contains(
            ka.last(),
        ) {
            1nat
        } else {
            0nat
        }
    }
}

/// Operation names of the entries of `b` whose key `ka` lacks, in order.
pub open spec fn added_ops_of(b: Seq<EntryView>, ka: Seq<(OpType, Seq<char>, Seq<u8>)>) -> Seq<Seq<char>>
    decreases b.len(),
{
    if b.len() == 0 {
        Seq::empty()
    } else {
        added_ops_of(b.drop_last(), ka) + if !ka.contains(entry_key(b.last())) {
            seq![op_name(b.last().op)]
        } else {
            Seq::empty()
        }
    }
}

/// A list of strings as values.
pub open spec fn strings(s: Seq<String>) -> Seq<Seq<char>> {
    s.map_values(|x: String| x@)
}

/// `d` is the ledger diff of entry lists `a` and `b`.
pub open spec fn ledger_diff_is(a: Seq<EntryView>, b: Seq<EntryView>, d: LedgerDiff) -> bool {
    &&& d.entries_added == added_ops_of(b, entry_keys(a)).len()
    &&& d.entries_removed == removed_count(entry_keys(a), entry_keys(b))
    &&& strings(d.added_ops@) == added_ops_of(b, entry_keys(a))
}

/// Whether one of the first `upto` entries of `es` has the key of `e`.
fn has_key(es: &Vec<LedgerEntry>, upto: usize, e: &LedgerEntry) -> (r: bool)
    requires
        upto <= es@.len(),
    ensures
        r == entry_keys(es@.map_values(|x: LedgerEntry| x@)).subrange(0, upto as int).contains(
            entry_key(e@),
        ),
{
    let ghost ks = entry_keys(es@.map_values(|x: LedgerEntry| x@));
    let mut i: usize = 0;
    while i < upto
        invariant
            ks == entry_keys(es@.map_values(|x: LedgerEntry| x@)),
            i <= upto <= es@.len(),
            forall|k: int| 0 <= k < i ==> #[trigger] ks[k] != entry_key(e@),
        decreases upto - i,
    {
        let x = &es[i];
        assert(ks[i as int] == entry_key(x@));
        if x.op == e.op && x.software == e.software && bytes_eq(
            vstd::array::array_as_slice(&x.resulting_hash),
            vstd::array::array_as_slice(&e.resulting_hash),
        ) {
            assert(ks.subrange(0, upto as int)[i as int] == entry_key(e@));
            return true;
        }
        i = i + 1;
    }
    proof {
        if ks.subrange(0, upto as int).contains(entry_key(e@)) {
            let k = choose|k: int| 0 <= k < upto && ks.subrange(0, upto as int)[k] == entry_key(e@);
            assert(ks[k] == entry_key(e@));
        }
    }
    false
}

fn diff_ledger(a: &AuraFile, b: &AuraFile) -> (d: LedgerDiff)
    ensures
        ledger_diff_is(a.ledger@.entries, b.ledger@.entries, d),
{
    proof {
        a.ledger.lemma_view();
        b.ledger.lemma_view();
    }
    let ea = &a.ledger.entries;
    let eb = &b.ledger.entries;
    let ghost va = ea@.map_values(|x: LedgerEntry| x@);
    let ghost vb = eb@.map_values(|x: LedgerEntry| x@);
    let ghost ka = entry_keys(va);
    let ghost kb = entry_keys(vb);
    // Distinct keys of A that B lacks.
    let mut removed: usize = 0;
    let mut i: usize = 0;
    while i < ea.len()
        invariant
            va == ea@.map_values(|x: LedgerEntry| x@),
            vb == eb@.map_values(|x: LedgerEntry| x@),
            ka == entry_keys(va),
            kb == entry_keys(vb),
            i <= ea@.len(),
            removed <= i,
            removed == removed_count(ka.subrange(0, i as int), kb),
        decreases ea@.len() - i,
    {
        let e = &ea[i];
        let ghost pre = ka.subrange(0, i as int);
        let ghost post = ka.subrange(0, i + 1);
        assert(post.drop_last() =~= pre);
        assert(post.last() == entry_key(e@));
        assert(kb.subrange(0, eb@.len() as int) =~= kb);
        if !has_key(ea, i, e) && !has_key(eb, eb.len(), e) {
            removed = removed + 1;
        }
        i = i + 1;
    }
    assert(ka.subrange(0, ea@.len() as int) =~= ka);
    let mut added_ops: Vec<String> = Vec::new();
    let mut j: usize = 0;
    while j < eb.len()
        invariant
            va == ea@.map_values(|x: LedgerEntry| x@),
            vb == eb@.map_values(|x: LedgerEntry| x@),
            ka == entry_keys(va),
            j <= eb@.len(),
            strings(added_ops@) == added_ops_of(vb.subrange(0, j as int), ka),
        decreases eb@.len() - j,
    {
        let e = &eb[j];
        let ghost pre = vb.subrange(0, j as int);
        let ghost post = vb.subrange(0, j + 1);
        assert(post.drop_last() =~= pre);
        assert(post.last() == e@);
        assert(ka.subrange(0, ea@.len() as int) =~= ka);
        let ghost before = strings(added_ops@);
        if !has_key(ea, ea.len(), e) {
            added_ops.push(e.op.name().to_owned());
            assert(strings(added_ops@) =~= before.push(op_name(e.op)));
        } else {
            assert(strings(added_ops@) =~= before);
        }
        j = j + 1;
    }
    assert(vb.subrange(0, eb@.len() as int) =~= vb);
    let entries_added = added_ops.len();
    assert(strings(added_ops@).len() == added_ops@.len());
    LedgerDiff { entries_added, entries_removed: removed, added_ops }
}

// ---------------------------------------------------------------------------
// The report
// ---------------------------------------------------------------------------

/// Compare two parsed AURA files and return a structured [`DiffReport`].
///
/// `confidence_differs` tells whether two confidences (as `f32` bit
/// patterns) differ enough to report a node as changed.
pub fn diff<F: Fn(u32, u32) -> bool>(a: &AuraFile, b: &AuraFile, confidence_differs: F) -> (r: DiffReport)
    requires
        forall|x: u32, y: u32| confidence_differs.requires((x, y)),
    ensures
        r.version_a == (a.header.version_major, a.header.version_minor),
        r.version_b == (b.header.version_major, b.header.version_minor),
        dag_diff_is(a.dag@, b.dag@, confidence_differs, r.dag),
        r.records.by_type@ == type_diffs(a.scene@, b.scene@, 256),
        ledger_diff_is(a.ledger@.entries, b.ledger@.entries, r.ledger),
        r.bootstrap_changed == (a.bootstrap.bytes@ != b.bootstrap.bytes@),
{
    DiffReport {
        version_a: (a.header.version_major, a.header.version_minor),
        version_b: (b.header.version_major, b.header.version_minor),
        dag: diff_dag(&a.dag, &b.dag, &confidence_differs),
        records: diff_records(a, b),
        ledger: diff_ledger(a, b),
        bootstrap_changed: !bytes_eq(a.bootstrap.bytes.as_slice(), b.bootstrap.bytes.as_slice()),
    }
}


// ---------------------------------------------------------------------------
// A file against itself
// ---------------------------------------------------------------------------

proof fn lemma_type_diffs_same(s: Seq<ChildView>, n: nat)
    ensures
        type_diffs(s, s, n).len() == 0,
    decreases n,
{
    if n > 0 {
        lemma_type_diffs_same(s, (n - 1) as nat);
    }
}

proof fn lemma_removed_none(ka: Seq<(OpType, Seq<char>, Seq<u8>)>, kb: Seq<(OpType, Seq<char>, Seq<u8>)>)
    requires
        forall|i: int| 0 <= i < ka.len() ==> kb.contains(#[trigger] ka[i]),
    ensures
        removed_count(ka, kb) == 0,
    decreases ka.len(),
{
    if ka.len() > 0 {
        let init = ka.drop_last();
        assert forall|i: int| 0 <= i < init.len() implies kb.contains(#[trigger] init[i]) by {
            assert(init[i] == ka[i]);
        }
        lemma_removed_none(init, kb);
        assert(kb.contains(ka[ka.len() - 1]));
    }
}

proof fn lemma_added_ops_none(b: Seq<EntryView>, ka: Seq<(OpType, Seq<char>, Seq<u8>)>)
    requires
        forall|i: int| 0 <= i < b.len() ==> ka.contains(entry_key(#[trigger] b[i])),
    ensures
        added_ops_of(b, ka).len() == 0,
    decreases b.len(),
{
    if b.len() > 0 {
        let init = b.drop_last();
        assert forall|i: int| 0 <= i < init.len() implies ka.contains(entry_key(#[trigger] init[i])) by {
            assert(init[i] == b[i]);
        }
        lemma_added_ops_none(init, ka);
        assert(ka.contains(entry_key(b[b.len() - 1])));
    }
}

/// Diffing a file against itself reports no added, removed or changed node,
/// no added or removed edge, no record-layout change, and no added or
/// removed ledger entry, as long as the confidence comparison never finds a
/// value different from itself.
pub proof fn law_self_diff_is_empty<F: Fn(u32, u32) -> bool>(
    g: DagView,
    s: Seq<ChildView>,
    l: Seq<EntryView>,
    f: F,
    d: DagDiff,
    ld: LedgerDiff,
)
    requires
        dag_diff_is(g, g, f, d),
        forall|x: u32, r: bool| call_ensures(f, (x, x), r) ==> !r,
        ledger_diff_is(l, l, ld),
    ensures
        d.nodes_added@.len() == 0,
        d.nodes_removed@.len() == 0,
        d.nodes_changed@.len() == 0,
        d.edges_added@.len() == 0,
        d.edges_removed@.len() == 0,
        type_diffs(s, s, 256).len() == 0,
        ld.entries_removed == 0,
        ld.added_ops@.len() == 0,
        ld.entries_added == 0,
{
    let n = g.nodes;
    if pairs(d.nodes_added@).len() > 0 {
        lemma_last_with(n, pairs(d.nodes_added@)[0].0);
    }
    if pairs(d.nodes_removed@).len() > 0 {
        lemma_last_with(n, pairs(d.nodes_removed@)[0].0);
    }
    let cv = change_views(d.nodes_changed@);
    if cv.len() > 0 {
        let o = last_with(n, cv[0].id).unwrap();
        assert(change_reported(f, o, o, true));
    }
    let ea = triples(d.edges_added@);
    if ea.len() > 0 {
        assert(ea.contains(ea[0]));
    }
    let er = triples(d.edges_removed@);
    if er.len() > 0 {
        assert(er.contains(er[0]));
    }
    lemma_type_diffs_same(s, 256);
    let ks = entry_keys(l);
    assert forall|i: int| 0 <= i < ks.len() implies ks.contains(#[trigger] ks[i]) by {}
    lemma_removed_none(ks, ks);
    assert forall|i: int| 0 <= i < l.len() implies ks.contains(entry_key(#[trigger] l[i])) by {
        assert(ks[i] == entry_key(l[i]));
    }
    lemma_added_ops_none(l, ks);
}

/// The entries of `type_diffs(a, b, n)` are for tags below `n`, in
/// increasing order, each with both counts, and a tag below `n` has one
/// exactly when its counts differ.
proof fn lemma_type_diffs(a: Seq<ChildView>, b: Seq<ChildView>, n: nat)
    requires
        n <= 256,
    ensures
        forall|k: int|
            0 <= k < type_diffs(a, b, n).len() ==> {
                let d = #[trigger] type_diffs(a, b, n)[k];
                &&& d.type_tag < n
                &&& d.a == tag_count(a, d.type_tag) as usize
                &&& d.b == tag_count(b, d.type_tag) as usize
                &&& tag_count(a, d.type_tag) != tag_count(b, d.type_tag)
            },
        forall|k: int, m: int|
            0 <= k < m < type_diffs(a, b, n).len() ==> type_diffs(a, b, n)[k].type_tag
                < type_diffs(a, b, n)[m].type_tag,
        forall|t: u8|
            t < n ==> (tag_count(a, t) != tag_count(b, t) <==> exists|k: int|
                0 <= k < type_diffs(a, b, n).len() && #[trigger] type_diffs(a, b, n)[k].type_tag
                    == t),
    decreases n,
{
    if n > 0 {
        lemma_type_diffs(a, b, (n - 1) as nat);
        let prev = type_diffs(a, b, (n - 1) as nat);
        let cur = type_diffs(a, b, n);
        let t = (n - 1) as u8;
        assert forall|k: int| 0 <= k < prev.len() implies cur[k] == prev[k] by {}
        assert forall|u: u8|
            u < n implies (tag_count(a, u) != tag_count(b, u) <==> exists|k: int|
                0 <= k < cur.len() && #[trigger] cur[k].type_tag == u) by {
            if u < n - 1 {
                if exists|k: int| 0 <= k < cur.len() && #[trigger] cur[k].type_tag == u {
                    let k = choose|k: int| 0 <= k < cur.len() && #[trigger] cur[k].type_tag == u;
                    if k < prev.len() {
                        assert(prev[k].type_tag == u);
                    }
                }
                if tag_count(a, u) != tag_count(b, u) {
                    let k = choose|k: int| 0 <= k < prev.len() && #[trigger] prev[k].type_tag == u;
                    assert(cur[k].type_tag == u);
                }
            } else {
                assert(u == t);
                if tag_count(a, u) != tag_count(b, u) {
                    assert(cur[prev.len() as int].type_tag == u);
                } else {
                    if exists|k: int| 0 <= k < cur.len() && #[trigger] cur[k].type_tag == u {
                        let k = choose|k: int| 0 <= k < cur.len() && #[trigger] cur[k].type_tag == u;
                        assert(prev[k].type_tag == u);
                    }
                }
            }
        }
    }
}

/// Record-layout law: the per-type report of [`diff`] (whose
/// `records.by_type` is `type_diffs(a, b, 256)`) lists a type tag exactly
/// when the number of children of that tag differs between the two scenes,
/// each time with the two counts, in increasing tag order, and diffing the
/// other way round reports the same tags with the counts swapped.
pub proof fn law_record_diff_reports_changed_counts(a: Seq<ChildView>, b: Seq<ChildView>)
    ensures
        forall|t: u8|
            tag_count(a, t) != tag_count(b, t) <==> exists|k: int|
                0 <= k < type_diffs(a, b, 256).len() && #[trigger] type_diffs(a, b, 256)[k].type_tag
                    == t,
        forall|k: int|
            0 <= k < type_diffs(a, b, 256).len() ==> {
                let d = #[trigger] type_diffs(a, b, 256)[k];
                &&& d.a == tag_count(a, d.type_tag) as usize
                &&& d.b == tag_count(b, d.type_tag) as usize
                &&& tag_count(a, d.type_tag) != tag_count(b, d.type_tag)
            },
        forall|k: int, m: int|
            0 <= k < m < type_diffs(a, b, 256).len() ==> type_diffs(a, b, 256)[k].type_tag
                < type_diffs(a, b, 256)[m].type_tag,
        type_diffs(b, a, 256).len() == type_diffs(a, b, 256).len(),
        forall|k: int|
            0 <= k < type_diffs(a, b, 256).len() ==> #[trigger] type_diffs(b, a, 256)[k]
                == (RecordTypeDiff {
                type_tag: type_diffs(a, b, 256)[k].type_tag,
                a: type_diffs(a, b, 256)[k].b,
                b: type_diffs(a, b, 256)[k].a,
            }),
{
    lemma_type_diffs(a, b, 256);
    lemma_type_diffs_swap(a, b, 256);
}

proof fn lemma_type_diffs_swap(a: Seq<ChildView>, b: Seq<ChildView>, n: nat)
    ensures
        type_diffs(b, a, n).len() == type_diffs(a, b, n).len(),
        forall|k: int|
            0 <= k < type_diffs(a, b, n).len() ==> #[trigger] type_diffs(b, a, n)[k]
                == (RecordTypeDiff {
                type_tag: type_diffs(a, b, n)[k].type_tag,
                a: type_diffs(a, b, n)[k].b,
                b: type_diffs(a, b, n)[k].a,
            }),
    decreases n,
{
    if n > 0 {
        lemma_type_diffs_swap(a, b, (n - 1) as nat);
    }
}

} // verus!
