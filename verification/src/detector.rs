//! Concept detectors that populate the AURA Semantic DAG.
//!
//! [`StubDetector`] is a pure-Rust detector that builds a plausible,
//! non-empty DAG (useful for offline tests and the CLI demo). The native
//! backends (ONNX Runtime, CoreML, TensorRT) are not built into this library:
//! [`CoreMlDetector`] and [`TensorRtDetector`] are placeholders that report
//! themselves unsupported.
use crate::error::AuraError;
use crate::neural::RgbImage;
use crate::semantic::{
    is_vertex, kahn_sorts, lemma_rle_append_repeat, lemma_rle_repeat, repeat, runs_fit,
    sorts_completely, spec_compress, ConceptEdge, ConceptNode, DagView,
    EdgeView, NodeView, SemanticDAG,
};
use vstd::prelude::*;

verus! {

/// A concept detector that turns an image into a [`SemanticDAG`].
pub trait Detector {
    /// The backend this detector runs on.
    spec fn backend(&self) -> Backend;

    /// Human-readable backend name; `"stub"` for the stub backend.
    fn name(&self) -> (s: &'static str)
        ensures
            self.backend() == Backend::Stub ==> s@ == "stub"@,
    ;

    /// Run detection, returning a (possibly empty) semantic graph. The stub
    /// backend returns [`stub_dag`] of the frame's size wherever
    /// [`stub_fits`] holds, and an `Unsupported` error elsewhere.
    fn detect(&self, img: &RgbImage) -> (r: Result<SemanticDAG, AuraError>)
        ensures
            self.backend() == Backend::Stub && stub_fits(img.width as int, img.height as int) ==> (
            r matches Ok(g) && g@ == stub_dag(img.width as int, img.height as int)),
            self.backend() == Backend::Stub && !stub_fits(img.width as int, img.height as int) ==> r matches Err(
                AuraError::Unsupported(_),
            ),
    ;
}

/// Selectable detector backend.
#[derive(Debug, Clone, Copy, PartialEq, Eq, Structural)]
pub enum Backend {
    /// Pure-Rust reference detector (no model weights, always available).
    Stub,
    /// ONNX Runtime backend.
    Ort,
    /// Apple CoreML backend.
    CoreMl,
    /// NVIDIA TensorRT backend.
    TensorRt,
}

/// Bit pattern of the `f32` confidence `0.95` the stub gives its sky.
pub const SKY_CONFIDENCE_BITS: u32 = 0x3F73_3333;

/// Bit pattern of the `f32` confidence `0.90` the stub gives its ground.
pub const GROUND_CONFIDENCE_BITS: u32 = 0x3F66_6666;

/// The mask of the top half (rows `y < h / 2`) of a `w × h` frame.
pub open spec fn sky_mask(w: int, h: int) -> Seq<u8> {
    Seq::new((w * h) as nat, |i: int| if i / w < h / 2 { 1u8 } else { 0u8 })
}

/// The mask of the bottom half (rows `y >= h / 2`) of a `w × h` frame.
pub open spec fn ground_mask(w: int, h: int) -> Seq<u8> {
    Seq::new((w * h) as nat, |i: int| if i / w < h / 2 { 0u8 } else { 1u8 })
}

/// The graph [`StubDetector`] builds for a `w × h` frame: `Sky` over the top
/// half, `Ground` over the bottom half, and `Ground -below-> Sky`; empty for
/// an empty frame.
pub open spec fn stub_dag(w: int, h: int) -> DagView {
    if w * h == 0 {
        DagView { nodes: Seq::empty(), edges: Seq::empty() }
    } else {
        DagView {
            nodes: seq![
                NodeView {
                    id: 1,
                    label: "Sky"@,
                    confidence_bits: SKY_CONFIDENCE_BITS,
                    bitmask_rle: spec_compress(sky_mask(w, h)),
                },
                NodeView {
                    id: 2,
                    label: "Ground"@,
                    confidence_bits: GROUND_CONFIDENCE_BITS,
                    bitmask_rle: spec_compress(ground_mask(w, h)),
                },
            ],
            edges: seq![EdgeView { source: 2, target: 1, relationship: "below"@ }],
        }
    }
}

/// Whether the stub can segment a `w × h` frame: its longest mask run, the
/// bottom half, fits a `u32` run count, and its masks fit the address space.
pub open spec fn stub_fits(w: int, h: int) -> bool {
    (h - h / 2) * w <= u32::MAX && w * h <= usize::MAX
}

proof fn lemma_row_split(i: int, w: int, mid: int)
    requires
        0 <= i,
        0 < w,
        0 <= mid,
    ensures
        (i / w < mid) == (i < mid * w),
{
    vstd::arithmetic::div_mod::lemma_fundamental_div_mod(i, w);
    let q = i / w;
    let r = i % w;
    assert(0 <= r < w);
    assert(q < mid ==> i < mid * w) by (nonlinear_arith)
        requires
            i == w * q + r,
            0 <= r < w,
    ;
    assert(q >= mid ==> i >= mid * w) by (nonlinear_arith)
        requires
            i == w * q + r,
            0 <= r,
            0 < w,
    ;
}

/// The masks of a frame the stub can segment have only runs that fit.
proof fn lemma_stub_masks_fit(w: int, h: int)
    requires
        0 < w,
        0 < h,
        (h - h / 2) * w <= u32::MAX,
    ensures
        runs_fit(sky_mask(w, h)),
        runs_fit(ground_mask(w, h)),
{
    let mid = h / 2;
    let n1 = mid * w;
    let n2 = (h - mid) * w;
    assert(0 <= n1 <= n2 && 0 < n2 && n1 + n2 == w * h) by (nonlinear_arith)
        requires
            mid == h / 2,
            0 < w,
            0 < h,
            n1 == mid * w,
            n2 == (h - mid) * w,
    ;
    let sky = sky_mask(w, h);
    let ground = ground_mask(w, h);
    let s2 = repeat(1, n1 as nat) + repeat(0, n2 as nat);
    let g2 = repeat(0, n1 as nat) + repeat(1, n2 as nat);
    assert forall|i: int| 0 <= i < sky.len() implies sky[i] == s2[i] && ground[i] == g2[i] by {
        lemma_row_split(i, w, mid);
    }
    assert(sky =~= s2);
    assert(ground =~= g2);
    lemma_rle_repeat(0, n2 as nat);
    lemma_rle_repeat(1, n2 as nat);
    if n1 > 0 {
        lemma_rle_repeat(1, n1 as nat);
        lemma_rle_repeat(0, n1 as nat);
        lemma_rle_append_repeat(repeat(1, n1 as nat), 0, n2 as nat);
        lemma_rle_append_repeat(repeat(0, n1 as nat), 1, n2 as nat);
    } else {
        assert(s2 =~= repeat(0, n2 as nat));
        assert(g2 =~= repeat(1, n2 as nat));
    }
}

/// Pure-Rust reference detector.
///
/// It segments the frame into a `Sky` (top half) and `Ground` (bottom half)
/// mask and links them with a spatial edge, guaranteeing a non-empty DAG for
/// offline testing and the end-to-end CLI demo.
pub struct StubDetector;

impl StubDetector {
    /// The two masks of a `w × h` frame.
    fn masks(w: usize, h: usize) -> (r: (Vec<u8>, Vec<u8>))
        requires
            w * h <= usize::MAX,
        ensures
            r.0@ == sky_mask(w as int, h as int),
            r.1@ == ground_mask(w as int, h as int),
    {
        let mut sky: Vec<u8> = Vec::new();
        let mut ground: Vec<u8> = Vec::new();
        let mid = h / 2;
        let mut y: usize = 0;
        while y < h
            invariant
                w * h <= usize::MAX,
                mid == h / 2,
                y <= h,
                sky@.len() == y * w,
                ground@.len() == y * w,
                forall|i: int| 0 <= i < sky@.len() ==> sky@[i] == (if i / (w as int) < mid { 1u8 } else { 0u8 }),
                forall|i: int| 0 <= i < ground@.len() ==> ground@[i] == (if i / (w as int) < mid { 0u8 } else { 1u8 }),
            decreases h - y,
        {
            let mut x: usize = 0;
            while x < w
                invariant
                    w * h <= usize::MAX,
                    mid == h / 2,
                    y < h,
                    x <= w,
                    sky@.len() == y * w + x,
                    ground@.len() == y * w + x,
                    forall|i: int| 0 <= i < sky@.len() ==> sky@[i] == (if i / (w as int) < mid { 1u8 } else { 0u8 }),
                    forall|i: int| 0 <= i < ground@.len() ==> ground@[i] == (if i / (w as int) < mid { 0u8 } else { 1u8 }),
                decreases w - x,
            {
                proof {
                    vstd::arithmetic::div_mod::lemma_fundamental_div_mod_converse(
                        (y * w + x) as int,
                        w as int,
                        y as int,
                        x as int,
                    );
                }
                if y < mid {
                    sky.push(1);
                    ground.push(0);
                } else {
                    sky.push(0);
                    ground.push(1);
                }
                x = x + 1;
            }
            proof {
                assert(y * w + w == (y + 1) * w) by (nonlinear_arith);
            }
            y = y + 1;
        }
        proof {
            assert(h * w == w * h) by (nonlinear_arith);
        }
        assert(sky@ =~= sky_mask(w as int, h as int));
        assert(ground@ =~= ground_mask(w as int, h as int));
        (sky, ground)
    }
}

impl Detector for StubDetector {
    open spec fn backend(&self) -> Backend {
        Backend::Stub
    }

    fn name(&self) -> (s: &'static str)
        ensures
            s@ == "stub"@,
    {
        "stub"
    }

    fn detect(&self, img: &RgbImage) -> (r: Result<SemanticDAG, AuraError>)
        ensures
            stub_fits(img.width as int, img.height as int) ==> (r matches Ok(g) && g@ == stub_dag(
                img.width as int,
                img.height as int,
            )),
            !stub_fits(img.width as int, img.height as int) ==> r matches Err(
                AuraError::Unsupported(_),
            ),
    {
        let w32 = img.width as u64;
        let h32 = img.height as u64;
        proof {
            assert((h32 - h32 / 2) * w32 <= 0xffff_ffff * 0xffff_ffff && w32 * h32 <= 0xffff_ffff
                * 0xffff_ffff) by (nonlinear_arith)
                requires
                    0 <= w32 <= 0xffff_ffff,
                    0 <= h32 <= 0xffff_ffff,
            ;
        }
        if (h32 - h32 / 2) * w32 > u32::MAX as u64 || w32 * h32 > usize::MAX as u64 {
            return Err(AuraError::Unsupported("image too large for the stub detector".to_owned()));
        }
        let w = img.width as usize;
        let h = img.height as usize;
        let total = w * h;
        if total == 0 {
            let g = SemanticDAG::new();
            assert(g@.nodes =~= Seq::<NodeView>::empty());
            assert(g@.edges =~= Seq::<EdgeView>::empty());
            return Ok(g);
        }
        let (sky, ground) = StubDetector::masks(w, h);
        proof {
            assert(w > 0 && h > 0) by (nonlinear_arith)
                requires
                    w * h != 0,
                    0 <= w,
                    0 <= h,
            ;
            lemma_stub_masks_fit(w as int, h as int);
        }
        let mut dag = SemanticDAG::new();
        dag.add_node(ConceptNode::from_bitmask(1, "Sky", SKY_CONFIDENCE_BITS, sky.as_slice()));
        dag.add_node(ConceptNode::from_bitmask(2, "Ground", GROUND_CONFIDENCE_BITS, ground.as_slice()));
        dag.add_edge(ConceptEdge { source: 2, target: 1, relationship: "below".to_owned() });
        assert(dag@.nodes =~= stub_dag(w as int, h as int).nodes);
        assert(dag@.edges =~= stub_dag(w as int, h as int).edges);
        Ok(dag)
    }
}

/// Placeholder CoreML-backed detector.
pub struct CoreMlDetector;

impl Detector for CoreMlDetector {
    open spec fn backend(&self) -> Backend {
        Backend::CoreMl
    }

    fn name(&self) -> (s: &'static str)
        ensures
            s@ == "coreml"@,
    {
        "coreml"
    }

    fn detect(&self, _img: &RgbImage) -> (r: Result<SemanticDAG, AuraError>)
        ensures
            r matches Err(AuraError::Unsupported(s)) && s@
                == "CoreML backend is scaffolded; wire up a coreml-rs binding"@,
    {
        Err(AuraError::Unsupported("CoreML backend is scaffolded; wire up a coreml-rs binding".to_owned()))
    }
}

/// Placeholder TensorRT-backed detector.
pub struct TensorRtDetector;

impl Detector for TensorRtDetector {
    open spec fn backend(&self) -> Backend {
        Backend::TensorRt
    }

    fn name(&self) -> (s: &'static str)
        ensures
            s@ == "tensorrt"@,
    {
        "tensorrt"
    }

    fn detect(&self, _img: &RgbImage) -> (r: Result<SemanticDAG, AuraError>)
        ensures
            r matches Err(AuraError::Unsupported(s)) && s@
                == "TensorRT backend is scaffolded; wire up a TensorRT binding"@,
    {
        Err(AuraError::Unsupported("TensorRT backend is scaffolded; wire up a TensorRT binding".to_owned()))
    }
}


/// Build a detector for the explicitly requested [`Backend`].
///
/// Only the stub is built into this library; every native backend returns
/// [`AuraError::Unsupported`].
pub fn detector_for(backend: Backend) -> (r: Result<Box<dyn Detector>, AuraError>)
    ensures
        backend == Backend::Stub <==> r is Ok,
        r matches Ok(d) ==> d.backend() == Backend::Stub,
        backend == Backend::Ort ==> (r matches Err(AuraError::Unsupported(s)) && s@
            == "ONNX backend requires the `onnx` feature"@),
        backend == Backend::CoreMl ==> (r matches Err(AuraError::Unsupported(s)) && s@
            == "CoreML backend requires the `coreml` feature"@),
        backend == Backend::TensorRt ==> (r matches Err(AuraError::Unsupported(s)) && s@
            == "TensorRT backend requires the `tensorrt` feature"@),
{
    match backend {
        Backend::Stub => Ok(Box::new(StubDetector)),
        Backend::Ort => Err(AuraError::Unsupported("ONNX backend requires the `onnx` feature".to_owned())),
        Backend::CoreMl => Err(AuraError::Unsupported("CoreML backend requires the `coreml` feature".to_owned())),
        Backend::TensorRt => Err(AuraError::Unsupported("TensorRT backend requires the `tensorrt` feature".to_owned())),
    }
}

/// Build the default detector, choosing the best backend built into the
/// library: the stub, as no native runtime is built in. Its `name` and
/// `detect` are therefore those of [`StubDetector`].
pub fn default_detector() -> (d: Box<dyn Detector>)
    ensures
        d.backend() == Backend::Stub,
{
    return Box::new(StubDetector);
}

/// The graph the stub builds for a non-empty frame has no cycle: every order
/// Kahn's algorithm can produce lists both of its nodes.
pub proof fn law_stub_dag_is_acyclic(w: int, h: int)
    requires
        w * h != 0,
    ensures
        sorts_completely(stub_dag(w, h)),
{
    let g = stub_dag(w, h);
    assert forall|o: Seq<u32>| kahn_sorts(g, o) implies o.len() == g.nodes.len() by {
        assert(g.nodes[0].id == 1 && g.nodes[1].id == 2 && g.edges[0].target == 1);
        assert(is_vertex(g, 2));
        assert(is_vertex(g, 1));
        if !o.contains(2) {
            let j = choose|j: int|
                0 <= j < g.edges.len() && #[trigger] g.edges[j].target == 2 && !o.contains(
                    g.edges[j].source,
                );
            assert(j == 0);
        }
        if !o.contains(1) {
            let j = choose|j: int|
                0 <= j < g.edges.len() && #[trigger] g.edges[j].target == 1 && !o.contains(
                    g.edges[j].source,
                );
            assert(j == 0);
            assert(g.edges[0].source == 2);
        }
        assert forall|k: int| 0 <= k < o.len() implies o[k] == 1 || o[k] == 2 by {
            assert(is_vertex(g, o[k]));
            if exists|i: int| 0 <= i < g.nodes.len() && #[trigger] g.nodes[i].id == o[k] {
                let i = choose|i: int| 0 <= i < g.nodes.len() && #[trigger] g.nodes[i].id == o[k];
                assert(i == 0 || i == 1);
            } else {
                let j = choose|j: int| 0 <= j < g.edges.len() && #[trigger] g.edges[j].target == o[k];
                assert(j == 0);
            }
        }
        o.unique_seq_to_set();
        assert(o.to_set() =~= set![1u32, 2u32]);
        assert(set![1u32, 2u32].len() == 2) by {
            assert(set![1u32, 2u32] =~= Set::<u32>::empty().insert(1).insert(2));
        }
    }
}

} // verus!
