//! The polymorphic AURA container: a typed, chunk-based record format.
//!
//! Layout:
//! ```text
//! [ MAGIC + VERSION + SECTION TABLE ]
//! [ BOOTSTRAP ] [ GENESIS ] [ RECORDS ] [ SEMANTIC ] [ LEDGER ]
//! [ FOOTER: CRC-32 + SHA3-256 ]
//! ```
//!
//! The header carries absolute byte offsets to every section, so a reader can
//! jump straight to the records it supports. The footer validates the whole
//! stream with a CRC-32 (integrity) and a SHA-3-256 (tamper-evidence).
//!
//! Floating-point fields of the records (camera intrinsics, frame rate) are
//! kept as their IEEE-754 bit patterns (`f32::to_bits`), which is exactly
//! what the binary format stores.
use crate::bootstrap::{is_wasm_prefixed, Bootstrap, AURA_BOOTSTRAP_WASM};
use crate::codec::{
    crc32, enc_bytes, enc_list, has_at, le_u16, le_u32, le_u64, lemma_has_at_split,
    lemma_has_at_split3, lemma_has_at_whole, lemma_list_round_trip, lemma_sp_bytes,
    lemma_sp_list_err, lemma_sp_u16, lemma_sp_u32, lemma_sp_u64, lemma_sp_u8, decodes_back,
    spec_crc32, sp_bytes, sp_list, sp_u16, sp_u32, sp_u8, u16_at, u32_at, u64_at, Reader, Writer,
};
use crate::crypto::{sha3_256, spec_sha3_256};
use crate::crypto::{spec_ed25519_public, spec_ed25519_sign};
use crate::error::AuraError;
use crate::neural::{ceil_div, effective_scale, encode_tier0, tier0_byte, RgbImage, Tier0View};
use crate::provenance::{appended, genesis_msg, OpType, SigningKey,

    enc_genesis, enc_ledger, genesis_fits, ledger_check, ledger_fits, lemma_genesis_round_trip,
    lemma_ledger_round_trip, reports, sp_genesis, sp_ledger, GenesisBlock, GenesisView,
    LedgerView, ProvenanceLedger,
};
use crate::semantic::{dag_fits, enc_dag, lemma_dag_round_trip, sp_dag, DagView, SemanticDAG};
use vstd::prelude::*;

verus! {

/// File magic: ASCII `"AURA"`.
pub const AURA_MAGIC: [u8; 4] = [0x41, 0x55, 0x52, 0x41];

/// Current major version.
pub const VERSION_MAJOR: u16 = 1;

/// Current minor version.
pub const VERSION_MINOR: u16 = 0;

/// Section identifiers used in the header table: the WASM bootstrap.
pub const SECTION_BOOTSTRAP: u8 = 1;

/// Provenance genesis block.
pub const SECTION_GENESIS: u8 = 2;

/// Root `SCENE_RECORD` (polymorphic records).
pub const SECTION_RECORDS: u8 = 3;

/// Semantic DAG.
pub const SECTION_SEMANTIC: u8 = 4;

/// Provenance ledger.
pub const SECTION_LEDGER: u8 = 5;

/// Size of the trailing footer (CRC-32 + SHA-3-256).
pub const FOOTER_SIZE: usize = 36;

/// Record type tags: standard 2D color data.
pub const REC_LUMINANCE_CHROMA: u8 = 0x10;

/// Spatial depth / Z-buffer record.
pub const REC_SPATIAL_DEPTH: u8 = 0x11;

/// Spatial (ambisonic) audio record.
pub const REC_SPATIAL_AUDIO: u8 = 0x12;

/// Temporal frame-timing / motion-vector record.
pub const REC_TEMPORAL: u8 = 0x13;

/// Neural Tier-1 reconstruction payload record.
pub const REC_NEURAL_PAYLOAD: u8 = 0x14;

/// Root scene record.
pub const REC_SCENE: u8 = 0x1F;

/// A single typed section entry in the header table.
#[derive(Debug, Clone, Copy, PartialEq, Eq, Structural)]
pub struct SectionEntry {
    /// Section kind (see `SECTION_*` constants).
    pub section_type: u8,
    /// Absolute byte offset of the section within the file.
    pub offset: u64,
    /// Byte length of the section.
    pub length: u64,
}

/// A polymorphic record within the AURA container.
pub trait Record {
    /// The record's type tag, as a value.
    spec fn record_tag(&self) -> u8;

    /// The record's serialized body, as a value.
    spec fn record_body(&self) -> Seq<u8>;

    /// The record's type tag.
    fn type_tag(&self) -> (t: u8)
        ensures
            t == self.record_tag(),
    ;

    /// Serialize the record into a writer.
    fn encode(&self, w: &mut Writer)
        ensures
            final(w)@ == old(w)@ + self.record_body(),
    ;
}

// ---------------------------------------------------------------------------
// Signed 16-bit values travel as their two's-complement `u16`.
// ---------------------------------------------------------------------------

fn put_i16(w: &mut Writer, v: i16)
    ensures
        final(w)@ == old(w)@ + le_u16(v as u16),
{
    w.put_u16(v as u16);
}

fn read_i16(r: &mut Reader) -> (res: Result<i16, AuraError>)
    ensures
        final(r).spec_data() == old(r).spec_data(),
        match sp_u16(old(r).spec_data(), old(r).spec_pos()) {
            Ok((v, q)) => res == Ok::<i16, AuraError>(v as i16) && final(r).spec_pos() == q,
            Err((e, q)) => res == Err::<i16, AuraError>(e) && final(r).spec_pos() == q,
        },
{
    let v = r.u16()?;
    Ok(v as i16)
}

proof fn lemma_i16_u16(x: i16)
    ensures
        (x as u16) as i16 == x,
{
    assert((x as u16) as i16 == x) by (bit_vector);
}

// ---------------------------------------------------------------------------
// Luminance / chroma
// ---------------------------------------------------------------------------

/// Standard 2D color data (YCbCr or RGB).
#[derive(Debug, Clone, PartialEq, Eq)]
pub struct LuminanceChromaRecord {
    /// Width in pixels.
    pub width: u32,
    /// Height in pixels.
    pub height: u32,
    /// Bits per sample (typically 8).
    pub depth: u8,
    /// Sampling: `0` = YCbCr 4:2:0, `1` = RGB.
    pub sampling: u8,
    /// Packed sample bytes.
    pub data: Vec<u8>,
}

/// The abstract value of a [`LuminanceChromaRecord`].
pub struct LumaView {
    pub width: u32,
    pub height: u32,
    pub depth: u8,
    pub sampling: u8,
    pub data: Seq<u8>,
}

impl View for LuminanceChromaRecord {
    type V = LumaView;

    open spec fn view(&self) -> LumaView {
        LumaView {
            width: self.width,
            height: self.height,
            depth: self.depth,
            sampling: self.sampling,
            data: self.data@,
        }
    }
}

/// Serialized body of a luminance/chroma record.
pub open spec fn enc_luma(v: LumaView) -> Seq<u8> {
    le_u32(v.width) + le_u32(v.height) + seq![v.depth] + seq![v.sampling] + enc_bytes(v.data)
}

/// Parse a luminance/chroma record body at `p`.
pub open spec fn sp_luma(d: Seq<u8>, p: int) -> Result<(LumaView, int), (AuraError, int)> {
    match sp_u32(d, p) {
        Err(e) => Err(e),
        Ok((width, p1)) => match sp_u32(d, p1) {
            Err(e) => Err(e),
            Ok((height, p2)) => match sp_u8(d, p2) {
                Err(e) => Err(e),
                Ok((depth, p3)) => match sp_u8(d, p3) {
                    Err(e) => Err(e),
                    Ok((sampling, p4)) => match sp_bytes(d, p4) {
                        Err(e) => Err(e),
                        Ok((data, p5)) => Ok(
                            (LumaView { width, height, depth, sampling, data }, p5),
                        ),
                    },
                },
            },
        },
    }
}

proof fn lemma_luma_round_trip(d: Seq<u8>, p: int, v: LumaView)
    requires
        0 <= p,
        has_at(d, p, enc_luma(v)),
        v.data.len() <= u32::MAX,
    ensures
        sp_luma(d, p) == Ok::<(LumaView, int), (AuraError, int)>((v, p + enc_luma(v).len())),
{
    let a = le_u32(v.width);
    let b = le_u32(v.height);
    let c = seq![v.depth];
    let e = seq![v.sampling];
    lemma_has_at_split(d, p, a + b + c + e, enc_bytes(v.data));
    lemma_has_at_split(d, p, a + b + c, e);
    lemma_has_at_split3(d, p, a, b, c);
    lemma_sp_u32(d, p, v.width);
    lemma_sp_u32(d, p + 4, v.height);
    lemma_sp_u8(d, p + 8, v.depth);
    lemma_sp_u8(d, p + 9, v.sampling);
    lemma_sp_bytes(d, p + 10, v.data);
}

impl LuminanceChromaRecord {
    fn decode(r: &mut Reader) -> (res: Result<Self, AuraError>)
        ensures
            final(r).spec_data() == old(r).spec_data(),
            match sp_luma(old(r).spec_data(), old(r).spec_pos()) {
                Ok((v, q)) => res matches Ok(x) && x@ == v && final(r).spec_pos() == q,
                Err((e, q)) => res == Err::<Self, AuraError>(e) && final(r).spec_pos() == q,
            },
    {
        let width = r.u32()?;
        let height = r.u32()?;
        let depth = r.u8()?;
        let sampling = r.u8()?;
        let data = r.bytes()?;
        Ok(LuminanceChromaRecord { width, height, depth, sampling, data })
    }
}

impl Record for LuminanceChromaRecord {
    open spec fn record_tag(&self) -> u8 {
        REC_LUMINANCE_CHROMA
    }

    open spec fn record_body(&self) -> Seq<u8> {
        enc_luma(self@)
    }

    fn type_tag(&self) -> (t: u8) {
        REC_LUMINANCE_CHROMA
    }

    fn encode(&self, w: &mut Writer) {
        w.put_u32(self.width);
        w.put_u32(self.height);
        w.put_u8(self.depth);
        w.put_u8(self.sampling);
        w.put_bytes(self.data.as_slice());
        assert(w@ =~= old(w)@ + enc_luma(self@));
    }
}

// ---------------------------------------------------------------------------
// Spatial depth
// ---------------------------------------------------------------------------

/// LiDAR / depth map with camera intrinsics `[fx, fy, cx, cy]`.
#[derive(Debug, Clone, PartialEq, Eq)]
pub struct SpatialDepthRecord {
    /// Width in pixels.
    pub width: u32,
    /// Height in pixels.
    pub height: u32,
    /// Camera intrinsics `[fx, fy, cx, cy]`, as the bit patterns of `f32`s.
    pub intrinsics_bits: [u32; 4],
    /// Z-buffer values in millimetres (one per pixel).
    pub depth: Vec<u16>,
}

/// The abstract value of a [`SpatialDepthRecord`].
pub struct DepthView {
    pub width: u32,
    pub height: u32,
    pub intrinsics_bits: Seq<u32>,
    pub depth: Seq<u16>,
}

impl View for SpatialDepthRecord {
    type V = DepthView;

    open spec fn view(&self) -> DepthView {
        DepthView {
            width: self.width,
            height: self.height,
            intrinsics_bits: self.intrinsics_bits@,
            depth: self.depth@,
        }
    }
}

/// A `u16` as two little-endian bytes.
pub open spec fn u16_enc() -> spec_fn(u16) -> Seq<u8> {
    |v: u16| le_u16(v)
}

/// Parse a little-endian `u16`.
pub open spec fn u16_dec() -> spec_fn(Seq<u8>, int) -> Result<(u16, int), (AuraError, int)> {
    |d: Seq<u8>, p: int| sp_u16(d, p)
}

/// Serialized body of a spatial-depth record.
pub open spec fn enc_depth(v: DepthView) -> Seq<u8> {
    le_u32(v.width) + le_u32(v.height) + le_u32(v.intrinsics_bits[0]) + le_u32(v.intrinsics_bits[1])
        + le_u32(v.intrinsics_bits[2]) + le_u32(v.intrinsics_bits[3]) + le_u32(
        v.depth.len() as u32,
    ) + enc_list(v.depth, u16_enc())
}

/// Parse a spatial-depth record body at `p`.
pub open spec fn sp_depth(d: Seq<u8>, p: int) -> Result<(DepthView, int), (AuraError, int)> {
    match sp_u32(d, p) {
        Err(e) => Err(e),
        Ok((width, p1)) => match sp_u32(d, p1) {
            Err(e) => Err(e),
            Ok((height, p2)) => match sp_u32(d, p2) {
                Err(e) => Err(e),
                Ok((fx, p3)) => match sp_u32(d, p3) {
                    Err(e) => Err(e),
                    Ok((fy, p4)) => match sp_u32(d, p4) {
                        Err(e) => Err(e),
                        Ok((cx, p5)) => match sp_u32(d, p5) {
                            Err(e) => Err(e),
                            Ok((cy, p6)) => match sp_u32(d, p6) {
                                Err(e) => Err(e),
                                Ok((n, p7)) => match sp_list(d, p7, n as nat, u16_dec()) {
                                    Err(e) => Err(e),
                                    Ok((depth, p8)) => Ok(
                                        (
                                            DepthView {
                                                width,
                                                height,
                                                intrinsics_bits: seq![fx, fy, cx, cy],
                                                depth,
                                            },
                                            p8,
                                        ),
                                    ),
                                },
                            },
                        },
                    },
                },
            },
        },
    }
}

proof fn lemma_u16_decodes_back()
    ensures
        decodes_back(u16_enc(), u16_dec(), |v: u16| true),
{
    assert forall|d: Seq<u8>, p: int, x: u16|
        #[trigger] has_at(d, p, u16_enc()(x)) implies u16_dec()(d, p) == Ok::<(u16, int), (AuraError, int)>(
        (x, p + u16_enc()(x).len()),
    ) by {
        lemma_sp_u16(d, p, x);
    }
}

proof fn lemma_depth_round_trip(d: Seq<u8>, p: int, v: DepthView)
    requires
        0 <= p,
        has_at(d, p, enc_depth(v)),
        v.intrinsics_bits.len() == 4,
        v.depth.len() <= u32::MAX,
    ensures
        sp_depth(d, p) == Ok::<(DepthView, int), (AuraError, int)>((v, p + enc_depth(v).len())),
{
    let i = v.intrinsics_bits;
    let a = le_u32(v.width) + le_u32(v.height) + le_u32(i[0]);
    let b = le_u32(i[1]) + le_u32(i[2]) + le_u32(i[3]);
    let c = le_u32(v.depth.len() as u32);
    let l = enc_list(v.depth, u16_enc());
    assert(enc_depth(v) =~= a + b + c + l);
    lemma_has_at_split(d, p, a + b + c, l);
    lemma_has_at_split3(d, p, a, b, c);
    lemma_has_at_split3(d, p, le_u32(v.width), le_u32(v.height), le_u32(i[0]));
    lemma_has_at_split3(d, p + 12, le_u32(i[1]), le_u32(i[2]), le_u32(i[3]));
    lemma_sp_u32(d, p, v.width);
    lemma_sp_u32(d, p + 4, v.height);
    lemma_sp_u32(d, p + 8, i[0]);
    lemma_sp_u32(d, p + 12, i[1]);
    lemma_sp_u32(d, p + 16, i[2]);
    lemma_sp_u32(d, p + 20, i[3]);
    lemma_sp_u32(d, p + 24, v.depth.len() as u32);
    lemma_u16_decodes_back();
    lemma_list_round_trip(d, p + 28, v.depth, u16_enc(), u16_dec(), |v: u16| true);
    assert(seq![i[0], i[1], i[2], i[3]] =~= i);
}

impl SpatialDepthRecord {
    fn decode(r: &mut Reader) -> (res: Result<Self, AuraError>)
        ensures
            final(r).spec_data() == old(r).spec_data(),
            match sp_depth(old(r).spec_data(), old(r).spec_pos()) {
                Ok((v, q)) => res matches Ok(x) && x@ == v && final(r).spec_pos() == q,
                Err((e, q)) => res == Err::<Self, AuraError>(e) && final(r).spec_pos() == q,
            },
    {
        let ghost d = r.spec_data();
        let ghost whole = sp_depth(d, r.spec_pos());
        let width = r.u32()?;
        let height = r.u32()?;
        let fx = r.u32()?;
        let fy = r.u32()?;
        let cx = r.u32()?;
        let cy = r.u32()?;
        let n = r.u32()?;
        let ghost p7 = r.spec_pos();
        let mut depth: Vec<u16> = Vec::new();
        let mut i: u32 = 0;
        while i < n
            invariant
                i <= n,
                r.spec_data() == d,
                d == old(r).spec_data(),
                whole == sp_depth(old(r).spec_data(), old(r).spec_pos()),
                whole == match sp_list(d, p7, n as nat, u16_dec()) {
                    Err(e) => Err(e),
                    Ok((depth, p8)) => Ok(
                        (DepthView { width, height, intrinsics_bits: seq![fx, fy, cx, cy], depth }, p8),
                    ),
                },
                sp_list(d, p7, i as nat, u16_dec()) == Ok::<(Seq<u16>, int), (AuraError, int)>(
                    (depth@, r.spec_pos()),
                ),
            decreases n - i,
        {
            let x = match r.u16() {
                Ok(x) => x,
                Err(err) => {
                    proof {
                        lemma_sp_list_err(d, p7, (i + 1) as nat, n as nat, u16_dec());
                    }
                    return Err(err);
                },
            };
            depth.push(x);
            i = i + 1;
        }
        let intrinsics_bits = [fx, fy, cx, cy];
        assert(intrinsics_bits@ =~= seq![fx, fy, cx, cy]);
        Ok(SpatialDepthRecord { width, height, intrinsics_bits, depth })
    }
}

impl Record for SpatialDepthRecord {
    open spec fn record_tag(&self) -> u8 {
        REC_SPATIAL_DEPTH
    }

    open spec fn record_body(&self) -> Seq<u8> {
        enc_depth(self@)
    }

    fn type_tag(&self) -> (t: u8) {
        REC_SPATIAL_DEPTH
    }

    fn encode(&self, w: &mut Writer) {
        w.put_u32(self.width);
        w.put_u32(self.height);
        let mut k: usize = 0;
        while k < 4
            invariant
                k <= 4,
                w@ == old(w)@ + le_u32(self.width) + le_u32(self.height) + enc_list(
                    self.intrinsics_bits@.subrange(0, k as int),
                    |x: u32| le_u32(x),
                ),
            decreases 4 - k,
        {
            w.put_u32(self.intrinsics_bits[k]);
            proof {
                let t = self.intrinsics_bits@.subrange(0, k as int + 1);
                assert(t.drop_last() =~= self.intrinsics_bits@.subrange(0, k as int));
            }
            k = k + 1;
        }
        let ghost head = w@;
        proof {
            let s = self.intrinsics_bits@;
            reveal_with_fuel(enc_list, 5);
            assert(s.subrange(0, 4).drop_last().drop_last().drop_last().drop_last() =~= Seq::<u32>::empty());
            assert(enc_list(s.subrange(0, 4), |x: u32| le_u32(x)) =~= le_u32(s[0]) + le_u32(s[1]) + le_u32(s[2]) + le_u32(s[3]));
        }
        w.put_u32(self.depth.len() as u32);
        let ghost start = w@;
        let mut i: usize = 0;
        while i < self.depth.len()
            invariant
                i <= self.depth@.len(),
                w@ == start + enc_list(self.depth@.subrange(0, i as int), u16_enc()),
            decreases self.depth@.len() - i,
        {
            w.put_u16(self.depth[i]);
            proof {
                let t = self.depth@.subrange(0, i as int + 1);
                assert(t.drop_last() =~= self.depth@.subrange(0, i as int));
            }
            i = i + 1;
        }
        assert(self.depth@.subrange(0, self.depth@.len() as int) =~= self.depth@);
        assert(w@ =~= old(w)@ + enc_depth(self@));
    }
}


// ---------------------------------------------------------------------------
// Spatial audio
// ---------------------------------------------------------------------------

/// Ambisonic / object-based 3D audio track.
#[derive(Debug, Clone, PartialEq, Eq)]
pub struct SpatialAudioRecord {
    /// Channel count.
    pub channels: u8,
    /// Sample rate in Hz.
    pub sample_rate: u32,
    /// Frame count.
    pub frames: u32,
    /// Encoded audio bytes.
    pub data: Vec<u8>,
}

/// The abstract value of a [`SpatialAudioRecord`].
pub struct AudioView {
    pub channels: u8,
    pub sample_rate: u32,
    pub frames: u32,
    pub data: Seq<u8>,
}

impl View for SpatialAudioRecord {
    type V = AudioView;

    open spec fn view(&self) -> AudioView {
        AudioView {
            channels: self.channels,
            sample_rate: self.sample_rate,
            frames: self.frames,
            data: self.data@,
        }
    }
}

/// Serialized body of a spatial-audio record.
pub open spec fn enc_audio(v: AudioView) -> Seq<u8> {
    seq![v.channels] + le_u32(v.sample_rate) + le_u32(v.frames) + enc_bytes(v.data)
}

/// Parse a spatial-audio record body at `p`.
pub open spec fn sp_audio(d: Seq<u8>, p: int) -> Result<(AudioView, int), (AuraError, int)> {
    match sp_u8(d, p) {
        Err(e) => Err(e),
        Ok((channels, p1)) => match sp_u32(d, p1) {
            Err(e) => Err(e),
            Ok((sample_rate, p2)) => match sp_u32(d, p2) {
                Err(e) => Err(e),
                Ok((frames, p3)) => match sp_bytes(d, p3) {
                    Err(e) => Err(e),
                    Ok((data, p4)) => Ok((AudioView { channels, sample_rate, frames, data }, p4)),
                },
            },
        },
    }
}

proof fn lemma_audio_round_trip(d: Seq<u8>, p: int, v: AudioView)
    requires
        0 <= p,
        has_at(d, p, enc_audio(v)),
        v.data.len() <= u32::MAX,
    ensures
        sp_audio(d, p) == Ok::<(AudioView, int), (AuraError, int)>((v, p + enc_audio(v).len())),
{
    let a = seq![v.channels];
    let b = le_u32(v.sample_rate);
    let c = le_u32(v.frames);
    lemma_has_at_split(d, p, a + b + c, enc_bytes(v.data));
    lemma_has_at_split3(d, p, a, b, c);
    lemma_sp_u8(d, p, v.channels);
    lemma_sp_u32(d, p + 1, v.sample_rate);
    lemma_sp_u32(d, p + 5, v.frames);
    lemma_sp_bytes(d, p + 9, v.data);
}

impl SpatialAudioRecord {
    fn decode(r: &mut Reader) -> (res: Result<Self, AuraError>)
        ensures
            final(r).spec_data() == old(r).spec_data(),
            match sp_audio(old(r).spec_data(), old(r).spec_pos()) {
                Ok((v, q)) => res matches Ok(x) && x@ == v && final(r).spec_pos() == q,
                Err((e, q)) => res == Err::<Self, AuraError>(e) && final(r).spec_pos() == q,
            },
    {
        let channels = r.u8()?;
        let sample_rate = r.u32()?;
        let frames = r.u32()?;
        let data = r.bytes()?;
        Ok(SpatialAudioRecord { channels, sample_rate, frames, data })
    }
}

impl Record for SpatialAudioRecord {
    open spec fn record_tag(&self) -> u8 {
        REC_SPATIAL_AUDIO
    }

    open spec fn record_body(&self) -> Seq<u8> {
        enc_audio(self@)
    }

    fn type_tag(&self) -> (t: u8) {
        REC_SPATIAL_AUDIO
    }

    fn encode(&self, w: &mut Writer) {
        w.put_u8(self.channels);
        w.put_u32(self.sample_rate);
        w.put_u32(self.frames);
        w.put_bytes(self.data.as_slice());
        assert(w@ =~= old(w)@ + enc_audio(self@));
    }
}

// ---------------------------------------------------------------------------
// Temporal
// ---------------------------------------------------------------------------

/// Frame timing + delta-motion vectors for video captures.
#[derive(Debug, Clone, PartialEq, Eq)]
pub struct TemporalRecord {
    /// Number of frames.
    pub frame_count: u32,
    /// Frames per second, as the bit pattern of an `f32`.
    pub fps_bits: u32,
    /// Per-macroblock motion vectors `(dx, dy)`.
    pub motion_vectors: Vec<(i16, i16)>,
}

/// The abstract value of a [`TemporalRecord`].
pub struct TemporalView {
    pub frame_count: u32,
    pub fps_bits: u32,
    pub motion_vectors: Seq<(i16, i16)>,
}

impl View for TemporalRecord {
    type V = TemporalView;

    open spec fn view(&self) -> TemporalView {
        TemporalView {
            frame_count: self.frame_count,
            fps_bits: self.fps_bits,
            motion_vectors: self.motion_vectors@,
        }
    }
}

/// A motion vector as two little-endian two's-complement `i16`s.
pub open spec fn mv_enc() -> spec_fn((i16, i16)) -> Seq<u8> {
    |m: (i16, i16)| le_u16(m.0 as u16) + le_u16(m.1 as u16)
}

/// Parse a motion vector at `p`.
pub open spec fn sp_mv(d: Seq<u8>, p: int) -> Result<((i16, i16), int), (AuraError, int)> {
    match sp_u16(d, p) {
        Err(e) => Err(e),
        Ok((a, p1)) => match sp_u16(d, p1) {
            Err(e) => Err(e),
            Ok((b, p2)) => Ok(((a as i16, b as i16), p2)),
        },
    }
}

/// [`sp_mv`] as a value.
pub open spec fn mv_dec() -> spec_fn(Seq<u8>, int) -> Result<((i16, i16), int), (AuraError, int)> {
    |d: Seq<u8>, p: int| sp_mv(d, p)
}

/// Serialized body of a temporal record.
pub open spec fn enc_temporal(v: TemporalView) -> Seq<u8> {
    le_u32(v.frame_count) + le_u32(v.fps_bits) + le_u32(v.motion_vectors.len() as u32) + enc_list(
        v.motion_vectors,
        mv_enc(),
    )
}

/// Parse a temporal record body at `p`.
pub open spec fn sp_temporal(d: Seq<u8>, p: int) -> Result<(TemporalView, int), (AuraError, int)> {
    match sp_u32(d, p) {
        Err(e) => Err(e),
        Ok((frame_count, p1)) => match sp_u32(d, p1) {
            Err(e) => Err(e),
            Ok((fps_bits, p2)) => match sp_u32(d, p2) {
                Err(e) => Err(e),
                Ok((n, p3)) => match sp_list(d, p3, n as nat, mv_dec()) {
                    Err(e) => Err(e),
                    Ok((motion_vectors, p4)) => Ok(
                        (TemporalView { frame_count, fps_bits, motion_vectors }, p4),
                    ),
                },
            },
        },
    }
}

proof fn lemma_mv_decodes_back()
    ensures
        decodes_back(mv_enc(), mv_dec(), |m: (i16, i16)| true),
{
    assert forall|d: Seq<u8>, p: int, m: (i16, i16)|
        #[trigger] has_at(d, p, mv_enc()(m)) implies mv_dec()(d, p) == Ok::<
        ((i16, i16), int),
        (AuraError, int),
    >((m, p + mv_enc()(m).len())) by {
        lemma_has_at_split(d, p, le_u16(m.0 as u16), le_u16(m.1 as u16));
        lemma_sp_u16(d, p, m.0 as u16);
        lemma_sp_u16(d, p + 2, m.1 as u16);
        lemma_i16_u16(m.0);
        lemma_i16_u16(m.1);
    }
}

proof fn lemma_temporal_round_trip(d: Seq<u8>, p: int, v: TemporalView)
    requires
        0 <= p,
        has_at(d, p, enc_temporal(v)),
        v.motion_vectors.len() <= u32::MAX,
    ensures
        sp_temporal(d, p) == Ok::<(TemporalView, int), (AuraError, int)>(
            (v, p + enc_temporal(v).len()),
        ),
{
    let a = le_u32(v.frame_count);
    let b = le_u32(v.fps_bits);
    let c = le_u32(v.motion_vectors.len() as u32);
    let l = enc_list(v.motion_vectors, mv_enc());
    lemma_has_at_split(d, p, a + b + c, l);
    lemma_has_at_split3(d, p, a, b, c);
    lemma_sp_u32(d, p, v.frame_count);
    lemma_sp_u32(d, p + 4, v.fps_bits);
    lemma_sp_u32(d, p + 8, v.motion_vectors.len() as u32);
    lemma_mv_decodes_back();
    lemma_list_round_trip(d, p + 12, v.motion_vectors, mv_enc(), mv_dec(), |m: (i16, i16)| true);
}

impl TemporalRecord {
    fn decode(r: &mut Reader) -> (res: Result<Self, AuraError>)
        ensures
            final(r).spec_data() == old(r).spec_data(),
            match sp_temporal(old(r).spec_data(), old(r).spec_pos()) {
                Ok((v, q)) => res matches Ok(x) && x@ == v && final(r).spec_pos() == q,
                Err((e, q)) => res == Err::<Self, AuraError>(e) && final(r).spec_pos() == q,
            },
    {
        let ghost d = r.spec_data();
        let ghost whole = sp_temporal(d, r.spec_pos());
        let frame_count = r.u32()?;
        let fps_bits = r.u32()?;
        let n = r.u32()?;
        let ghost p3 = r.spec_pos();
        let mut motion_vectors: Vec<(i16, i16)> = Vec::new();
        let mut i: u32 = 0;
        while i < n
            invariant
                i <= n,
                r.spec_data() == d,
                d == old(r).spec_data(),
                whole == sp_temporal(old(r).spec_data(), old(r).spec_pos()),
                whole == match sp_list(d, p3, n as nat, mv_dec()) {
                    Err(e) => Err(e),
                    Ok((motion_vectors, p4)) => Ok(
                        (TemporalView { frame_count, fps_bits, motion_vectors }, p4),
                    ),
                },
                sp_list(d, p3, i as nat, mv_dec()) == Ok::<(Seq<(i16, i16)>, int), (AuraError, int)>(
                    (motion_vectors@, r.spec_pos()),
                ),
            decreases n - i,
        {
            let ghost q = r.spec_pos();
            let dx = match read_i16(r) {
                Ok(x) => x,
                Err(err) => {
                    proof {
                        lemma_sp_list_err(d, p3, (i + 1) as nat, n as nat, mv_dec());
                    }
                    return Err(err);
                },
            };
            let dy = match read_i16(r) {
                Ok(x) => x,
                Err(err) => {
                    proof {
                        lemma_sp_list_err(d, p3, (i + 1) as nat, n as nat, mv_dec());
                    }
                    return Err(err);
                },
            };
            motion_vectors.push((dx, dy));
            i = i + 1;
        }
        Ok(TemporalRecord { frame_count, fps_bits, motion_vectors })
    }
}

impl Record for TemporalRecord {
    open spec fn record_tag(&self) -> u8 {
        REC_TEMPORAL
    }

    open spec fn record_body(&self) -> Seq<u8> {
        enc_temporal(self@)
    }

    fn type_tag(&self) -> (t: u8) {
        REC_TEMPORAL
    }

    fn encode(&self, w: &mut Writer) {
        w.put_u32(self.frame_count);
        w.put_u32(self.fps_bits);
        w.put_u32(self.motion_vectors.len() as u32);
        let ghost start = w@;
        let mut i: usize = 0;
        while i < self.motion_vectors.len()
            invariant
                i <= self.motion_vectors@.len(),
                w@ == start + enc_list(self.motion_vectors@.subrange(0, i as int), mv_enc()),
            decreases self.motion_vectors@.len() - i,
        {
            let (dx, dy) = self.motion_vectors[i];
            put_i16(w, dx);
            put_i16(w, dy);
            proof {
                let t = self.motion_vectors@.subrange(0, i as int + 1);
                assert(t.drop_last() =~= self.motion_vectors@.subrange(0, i as int));
                assert(w@ =~= start + enc_list(t, mv_enc()));
            }
            i = i + 1;
        }
        assert(self.motion_vectors@.subrange(0, self.motion_vectors@.len() as int)
            =~= self.motion_vectors@);
        assert(w@ =~= old(w)@ + enc_temporal(self@));
    }
}


// ---------------------------------------------------------------------------
// Scene
// ---------------------------------------------------------------------------

/// A child record of the root scene: one of the record kinds the container
/// reads back.
#[derive(Debug, Clone, PartialEq, Eq)]
pub enum SceneChild {
    /// Standard 2D color data.
    LuminanceChroma(LuminanceChromaRecord),
    /// Depth map.
    SpatialDepth(SpatialDepthRecord),
    /// 3D audio track.
    SpatialAudio(SpatialAudioRecord),
    /// Frame timing and motion vectors.
    Temporal(TemporalRecord),
}

/// The abstract value of a [`SceneChild`].
pub enum ChildView {
    LuminanceChroma(LumaView),
    SpatialDepth(DepthView),
    SpatialAudio(AudioView),
    Temporal(TemporalView),
}

impl View for SceneChild {
    type V = ChildView;

    open spec fn view(&self) -> ChildView {
        match self {
            SceneChild::LuminanceChroma(r) => ChildView::LuminanceChroma(r@),
            SceneChild::SpatialDepth(r) => ChildView::SpatialDepth(r@),
            SceneChild::SpatialAudio(r) => ChildView::SpatialAudio(r@),
            SceneChild::Temporal(r) => ChildView::Temporal(r@),
        }
    }
}

/// Type tag of a child record.
pub open spec fn child_tag(c: ChildView) -> u8 {
    match c {
        ChildView::LuminanceChroma(_) => REC_LUMINANCE_CHROMA,
        ChildView::SpatialDepth(_) => REC_SPATIAL_DEPTH,
        ChildView::SpatialAudio(_) => REC_SPATIAL_AUDIO,
        ChildView::Temporal(_) => REC_TEMPORAL,
    }
}

/// Serialized body of a child record (without its tag).
pub open spec fn child_body(c: ChildView) -> Seq<u8> {
    match c {
        ChildView::LuminanceChroma(v) => enc_luma(v),
        ChildView::SpatialDepth(v) => enc_depth(v),
        ChildView::SpatialAudio(v) => enc_audio(v),
        ChildView::Temporal(v) => enc_temporal(v),
    }
}

/// A child record as the scene stores it: its tag, then its body.
pub open spec fn enc_child(c: ChildView) -> Seq<u8> {
    seq![child_tag(c)] + child_body(c)
}

/// The record body of kind `tag` at `p`, or [`AuraError::UnknownRecord`].
pub open spec fn sp_record(tag: u8, d: Seq<u8>, p: int) -> Result<(ChildView, int), (AuraError, int)> {
    if tag == REC_LUMINANCE_CHROMA {
        match sp_luma(d, p) {
            Err(e) => Err(e),
            Ok((v, q)) => Ok((ChildView::LuminanceChroma(v), q)),
        }
    } else if tag == REC_SPATIAL_DEPTH {
        match sp_depth(d, p) {
            Err(e) => Err(e),
            Ok((v, q)) => Ok((ChildView::SpatialDepth(v), q)),
        }
    } else if tag == REC_SPATIAL_AUDIO {
        match sp_audio(d, p) {
            Err(e) => Err(e),
            Ok((v, q)) => Ok((ChildView::SpatialAudio(v), q)),
        }
    } else if tag == REC_TEMPORAL {
        match sp_temporal(d, p) {
            Err(e) => Err(e),
            Ok((v, q)) => Ok((ChildView::Temporal(v), q)),
        }
    } else {
        Err((AuraError::UnknownRecord(tag), p))
    }
}

/// Parse a tagged child record at `p`.
pub open spec fn sp_child(d: Seq<u8>, p: int) -> Result<(ChildView, int), (AuraError, int)> {
    match sp_u8(d, p) {
        Err(e) => Err(e),
        Ok((tag, p1)) => sp_record(tag, d, p1),
    }
}

/// Every length of a child record fits its `u32` prefix.
pub open spec fn child_fits(c: ChildView) -> bool {
    match c {
        ChildView::LuminanceChroma(v) => v.data.len() <= u32::MAX,
        ChildView::SpatialDepth(v) => v.intrinsics_bits.len() == 4 && v.depth.len() <= u32::MAX,
        ChildView::SpatialAudio(v) => v.data.len() <= u32::MAX,
        ChildView::Temporal(v) => v.motion_vectors.len() <= u32::MAX,
    }
}

/// [`enc_child`] as a value.
pub open spec fn child_enc() -> spec_fn(ChildView) -> Seq<u8> {
    |c: ChildView| enc_child(c)
}

/// [`sp_child`] as a value.
pub open spec fn child_dec() -> spec_fn(Seq<u8>, int) -> Result<(ChildView, int), (AuraError, int)> {
    |d: Seq<u8>, p: int| sp_child(d, p)
}

/// [`child_fits`] as a value.
pub open spec fn child_ok() -> spec_fn(ChildView) -> bool {
    |c: ChildView| child_fits(c)
}

/// Serialized root scene: the child count, then each tagged child.
pub open spec fn enc_scene(s: Seq<ChildView>) -> Seq<u8> {
    le_u32(s.len() as u32) + enc_list(s, child_enc())
}

/// Parse a root scene at `p`.
pub open spec fn sp_scene(d: Seq<u8>, p: int) -> Result<(Seq<ChildView>, int), (AuraError, int)> {
    match sp_u32(d, p) {
        Err(e) => Err(e),
        Ok((n, p1)) => sp_list(d, p1, n as nat, child_dec()),
    }
}

/// The scene's child count and every child fit their `u32` prefixes.
pub open spec fn scene_fits(s: Seq<ChildView>) -> bool {
    &&& s.len() <= u32::MAX
    &&& forall|i: int| 0 <= i < s.len() ==> child_fits(#[trigger] s[i])
}

proof fn lemma_child_round_trip(d: Seq<u8>, p: int, c: ChildView)
    requires
        0 <= p,
        has_at(d, p, enc_child(c)),
        child_fits(c),
    ensures
        sp_child(d, p) == Ok::<(ChildView, int), (AuraError, int)>((c, p + enc_child(c).len())),
{
    lemma_has_at_split(d, p, seq![child_tag(c)], child_body(c));
    lemma_sp_u8(d, p, child_tag(c));
    match c {
        ChildView::LuminanceChroma(v) => lemma_luma_round_trip(d, p + 1, v),
        ChildView::SpatialDepth(v) => lemma_depth_round_trip(d, p + 1, v),
        ChildView::SpatialAudio(v) => lemma_audio_round_trip(d, p + 1, v),
        ChildView::Temporal(v) => lemma_temporal_round_trip(d, p + 1, v),
    }
}

proof fn lemma_child_decodes_back()
    ensures
        decodes_back(child_enc(), child_dec(), child_ok()),
{
    assert forall|d: Seq<u8>, p: int, c: ChildView|
        child_ok()(c) && #[trigger] has_at(d, p, child_enc()(c)) implies child_dec()(d, p) == Ok::<
        (ChildView, int),
        (AuraError, int),
    >((c, p + child_enc()(c).len())) by {
        if p >= 0 {
            lemma_child_round_trip(d, p, c);
        }
    }
}

/// Reading back an encoded scene gives the same children.
pub proof fn law_scene_round_trip(d: Seq<u8>, p: int, s: Seq<ChildView>)
    requires
        0 <= p,
        has_at(d, p, enc_scene(s)),
        scene_fits(s),
    ensures
        sp_scene(d, p) == Ok::<(Seq<ChildView>, int), (AuraError, int)>(
            (s, p + enc_scene(s).len()),
        ),
{
    lemma_has_at_split(d, p, le_u32(s.len() as u32), enc_list(s, child_enc()));
    lemma_sp_u32(d, p, s.len() as u32);
    lemma_child_decodes_back();
    lemma_list_round_trip(d, p + 4, s, child_enc(), child_dec(), child_ok());
}

impl SceneChild {
    /// The luminance/chroma record inside, if this child is one.
    pub fn as_luminance_chroma(&self) -> (r: Option<&LuminanceChromaRecord>)
        ensures
            match self {
                SceneChild::LuminanceChroma(x) => r == Some(x),
                _ => r is None,
            },
    {
        match self {
            SceneChild::LuminanceChroma(x) => Some(x),
            _ => None,
        }
    }
}

impl Record for SceneChild {
    open spec fn record_tag(&self) -> u8 {
        child_tag(self@)
    }

    open spec fn record_body(&self) -> Seq<u8> {
        child_body(self@)
    }

    fn type_tag(&self) -> (t: u8) {
        match self {
            SceneChild::LuminanceChroma(x) => x.type_tag(),
            SceneChild::SpatialDepth(x) => x.type_tag(),
            SceneChild::SpatialAudio(x) => x.type_tag(),
            SceneChild::Temporal(x) => x.type_tag(),
        }
    }

    fn encode(&self, w: &mut Writer) {
        match self {
            SceneChild::LuminanceChroma(x) => x.encode(w),
            SceneChild::SpatialDepth(x) => x.encode(w),
            SceneChild::SpatialAudio(x) => x.encode(w),
            SceneChild::Temporal(x) => x.encode(w),
        }
    }
}

fn decode_record(tag: u8, r: &mut Reader) -> (res: Result<SceneChild, AuraError>)
    ensures
        final(r).spec_data() == old(r).spec_data(),
        match sp_record(tag, old(r).spec_data(), old(r).spec_pos()) {
            Ok((v, q)) => res matches Ok(x) && x@ == v && final(r).spec_pos() == q,
            Err((e, q)) => res == Err::<SceneChild, AuraError>(e) && final(r).spec_pos() == q,
        },
{
    if tag == REC_LUMINANCE_CHROMA {
        Ok(SceneChild::LuminanceChroma(LuminanceChromaRecord::decode(r)?))
    } else if tag == REC_SPATIAL_DEPTH {
        Ok(SceneChild::SpatialDepth(SpatialDepthRecord::decode(r)?))
    } else if tag == REC_SPATIAL_AUDIO {
        Ok(SceneChild::SpatialAudio(SpatialAudioRecord::decode(r)?))
    } else if tag == REC_TEMPORAL {
        Ok(SceneChild::Temporal(TemporalRecord::decode(r)?))
    } else {
        Err(AuraError::UnknownRecord(tag))
    }
}

/// The root container; wraps an ordered list of child records.
#[derive(Debug, Clone, PartialEq, Eq)]
pub struct SceneRecord {
    /// Child records (leaves such as luminance, depth, audio, temporal).
    pub children: Vec<SceneChild>,
}

impl View for SceneRecord {
    type V = Seq<ChildView>;

    open spec fn view(&self) -> Seq<ChildView> {
        self.children@.map_values(|c: SceneChild| c@)
    }
}

impl SceneRecord {
    /// An empty scene.
    pub fn new() -> (s: Self)
        ensures
            s@ == Seq::<ChildView>::empty(),
    {
        let s = SceneRecord { children: Vec::new() };
        assert(s@ =~= Seq::<ChildView>::empty());
        s
    }

    /// Push a child record.
    pub fn push(&mut self, record: SceneChild)
        ensures
            final(self)@ == old(self)@.push(record@),
    {
        let ghost v = record@;
        self.children.push(record);
        assert(self@ =~= old(self)@.push(v));
    }

    fn encode(&self, w: &mut Writer)
        ensures
            final(w)@ == old(w)@ + enc_scene(self@),
    {
        let ghost s = self@;
        w.put_u32(self.children.len() as u32);
        let ghost start = w@;
        let mut i: usize = 0;
        while i < self.children.len()
            invariant
                i <= self.children@.len(),
                s == self@,
                w@ == start + enc_list(s.subrange(0, i as int), child_enc()),
            decreases self.children@.len() - i,
        {
            let c = &self.children[i];
            w.put_u8(c.type_tag());
            c.encode(w);
            proof {
                let t = s.subrange(0, i as int + 1);
                assert(t.drop_last() =~= s.subrange(0, i as int));
                assert(s[i as int] == c@);
                assert(w@ =~= start + enc_list(t, child_enc()));
            }
            i = i + 1;
        }
        assert(s.subrange(0, s.len() as int) =~= s);
        assert(w@ =~= old(w)@ + enc_scene(self@));
    }

    fn decode(r: &mut Reader) -> (res: Result<Self, AuraError>)
        ensures
            final(r).spec_data() == old(r).spec_data(),
            match sp_scene(old(r).spec_data(), old(r).spec_pos()) {
                Ok((v, q)) => res matches Ok(x) && x@ == v && final(r).spec_pos() == q,
                Err((e, q)) => res == Err::<Self, AuraError>(e) && final(r).spec_pos() == q,
            },
    {
        let ghost d = r.spec_data();
        let n = r.u32()?;
        let ghost p1 = r.spec_pos();
        let mut children: Vec<SceneChild> = Vec::new();
        let mut i: u32 = 0;
        assert(children@.map_values(|c: SceneChild| c@) =~= Seq::<ChildView>::empty());
        while i < n
            invariant
                i <= n,
                r.spec_data() == d,
                d == old(r).spec_data(),
                sp_scene(old(r).spec_data(), old(r).spec_pos()) == sp_list(d, p1, n as nat, child_dec()),
                sp_list(d, p1, i as nat, child_dec()) == Ok::<(Seq<ChildView>, int), (AuraError, int)>(
                    (children@.map_values(|c: SceneChild| c@), r.spec_pos()),
                ),
            decreases n - i,
        {
            let ghost before = children@;
            let tag = match r.u8() {
                Ok(t) => t,
                Err(err) => {
                    proof {
                        lemma_sp_list_err(d, p1, (i + 1) as nat, n as nat, child_dec());
                    }
                    return Err(err);
                },
            };
            let x = match decode_record(tag, r) {
                Ok(x) => x,
                Err(err) => {
                    proof {
                        lemma_sp_list_err(d, p1, (i + 1) as nat, n as nat, child_dec());
                    }
                    return Err(err);
                },
            };
            children.push(x);
            proof {
                assert(children@.map_values(|c: SceneChild| c@) =~= before.map_values(
                    |c: SceneChild| c@,
                ).push(x@));
            }
            i = i + 1;
        }
        Ok(SceneRecord { children })
    }
}


// ---------------------------------------------------------------------------
// Header, file and builder
// ---------------------------------------------------------------------------

/// Parsed file header (magic, version, and section table).
#[derive(Debug, Clone, PartialEq, Eq)]
pub struct AuraHeader {
    /// Major version.
    pub version_major: u16,
    /// Minor version.
    pub version_minor: u16,
    /// Section table.
    pub sections: Vec<SectionEntry>,
}

/// The abstract value of an [`AuraHeader`].
pub struct HeaderView {
    pub version_major: u16,
    pub version_minor: u16,
    pub sections: Seq<SectionEntry>,
}

impl View for AuraHeader {
    type V = HeaderView;

    open spec fn view(&self) -> HeaderView {
        HeaderView {
            version_major: self.version_major,
            version_minor: self.version_minor,
            sections: self.sections@,
        }
    }
}

/// A fully parsed AURA file.
#[derive(Debug)]
pub struct AuraFile {
    /// Header.
    pub header: AuraHeader,
    /// WASM bootstrap (decoder key).
    pub bootstrap: Bootstrap,
    /// Provenance genesis block.
    pub genesis: GenesisBlock,
    /// Root scene record.
    pub scene: SceneRecord,
    /// Semantic DAG.
    pub dag: SemanticDAG,
    /// Provenance ledger.
    pub ledger: ProvenanceLedger,
}

/// The abstract value of an [`AuraFile`].
pub struct FileView {
    pub header: HeaderView,
    pub bootstrap: Seq<u8>,
    pub genesis: GenesisView,
    pub scene: Seq<ChildView>,
    pub dag: DagView,
    pub ledger: LedgerView,
}

impl View for AuraFile {
    type V = FileView;

    open spec fn view(&self) -> FileView {
        FileView {
            header: self.header@,
            bootstrap: self.bootstrap.bytes@,
            genesis: self.genesis@,
            scene: self.scene@,
            dag: self.dag@,
            ledger: self.ledger@,
        }
    }
}

/// The message [`AuraFile::verify`] reports for a bootstrap without the WASM
/// prefix.
pub open spec fn bootstrap_fault_message() -> Seq<char> {
    "bootstrap WASM failed validation"@
}

impl AuraFile {
    /// Verify the trust chain (ledger) and the bootstrap validity.
    pub fn verify(&self) -> (r: Result<(), AuraError>)
        ensures
            !is_wasm_prefixed(self.bootstrap.bytes@) ==> (r matches Err(AuraError::TrustSealBroken(s))
                && s@ == bootstrap_fault_message()),
            is_wasm_prefixed(self.bootstrap.bytes@) ==> reports(r, ledger_check(self.ledger@)),
    {
        if !self.bootstrap.validate() {
            return Err(AuraError::TrustSealBroken("bootstrap WASM failed validation".to_owned()));
        }
        self.ledger.verify()
    }
}

/// Builder that accumulates all sections and serializes a complete AURA file.
pub struct AuraBuilder {
    /// WASM bootstrap.
    pub bootstrap: Bootstrap,
    /// Provenance genesis.
    pub genesis: GenesisBlock,
    /// Root scene.
    pub scene: SceneRecord,
    /// Semantic DAG.
    pub dag: SemanticDAG,
    /// Provenance ledger.
    pub ledger: ProvenanceLedger,
}

/// The abstract value of an [`AuraBuilder`].
pub struct BuilderView {
    pub bootstrap: Seq<u8>,
    pub genesis: GenesisView,
    pub scene: Seq<ChildView>,
    pub dag: DagView,
    pub ledger: LedgerView,
}

impl View for AuraBuilder {
    type V = BuilderView;

    open spec fn view(&self) -> BuilderView {
        BuilderView {
            bootstrap: self.bootstrap.bytes@,
            genesis: self.genesis@,
            scene: self.scene@,
            dag: self.dag@,
            ledger: self.ledger@,
        }
    }
}

// ---------------------------------------------------------------------------
// File layout
// ---------------------------------------------------------------------------

/// Size of the header of a file with five sections: magic, two version
/// numbers, the section count, and five 17-byte table entries.
pub open spec fn header_len() -> int {
    95
}

/// The five section bodies, in file order.
#[verifier::opaque]
pub open spec fn section_bodies(b: BuilderView) -> Seq<Seq<u8>> {
    seq![
        enc_bytes(b.bootstrap),
        enc_genesis(b.genesis),
        enc_scene(b.scene),
        enc_dag(b.dag),
        enc_ledger(b.ledger),
    ]
}

/// Total length of the first `i` byte strings of `s`.
pub open spec fn prefix_len(s: Seq<Seq<u8>>, i: int) -> int
    decreases i,
{
    if i <= 0 {
        0
    } else {
        prefix_len(s, i - 1) + s[i - 1].len()
    }
}

/// Absolute offset of section `i` (0-based) in a built file.
pub open spec fn section_offset(b: BuilderView, i: int) -> int {
    header_len() + prefix_len(section_bodies(b), i)
}

/// Header table entry of section `i` (0-based) of a built file.
pub open spec fn built_entry(b: BuilderView, i: int) -> SectionEntry {
    SectionEntry {
        section_type: (i + 1) as u8,
        offset: section_offset(b, i) as u64,
        length: section_bodies(b)[i].len() as u64,
    }
}

/// A header table entry as bytes.
pub open spec fn enc_entry(e: SectionEntry) -> Seq<u8> {
    seq![e.section_type] + le_u64(e.offset) + le_u64(e.length)
}

/// The fixed start of a file: magic, version, and a section count of five.
pub open spec fn file_head() -> Seq<u8> {
    AURA_MAGIC@ + le_u16(VERSION_MAJOR) + le_u16(VERSION_MINOR) + le_u16(5)
}

/// The five section table entries of a built file, as bytes.
pub open spec fn built_table(b: BuilderView) -> Seq<Seq<u8>> {
    Seq::new(5, |i: int| enc_entry(built_entry(b, i)))
}

/// A head, five table entries and five section bodies, one after another.
#[verifier::opaque]
pub open spec fn layout(head: Seq<u8>, t: Seq<Seq<u8>>, s: Seq<Seq<u8>>) -> Seq<u8> {
    head + t[0] + t[1] + t[2] + t[3] + t[4] + s[0] + s[1] + s[2] + s[3] + s[4]
}

/// Everything a built file holds before its footer.
pub open spec fn file_body(b: BuilderView) -> Seq<u8> {
    layout(file_head(), built_table(b), section_bodies(b))
}

/// The bytes [`AuraBuilder::build`] produces: the body, then its CRC-32 and
/// its SHA-3-256.
pub open spec fn file_bytes(b: BuilderView) -> Seq<u8> {
    file_body(b) + le_u32(spec_crc32(file_body(b))) + spec_sha3_256(file_body(b))
}

/// Length of a built file.
pub open spec fn file_len(b: BuilderView) -> int {
    section_offset(b, 5) + FOOTER_SIZE
}

/// Every length prefix of the sections holds its count exactly, so that the
/// built file reads back as what was built.
pub open spec fn build_fits(b: BuilderView) -> bool {
    &&& b.bootstrap.len() <= u32::MAX
    &&& genesis_fits(b.genesis)
    &&& scene_fits(b.scene)
    &&& dag_fits(b.dag)
    &&& ledger_fits(b.ledger)
}

/// What [`open`] reads from the file a builder builds.
pub open spec fn built_view(b: BuilderView) -> FileView {
    FileView {
        header: HeaderView {
            version_major: VERSION_MAJOR,
            version_minor: VERSION_MINOR,
            sections: seq![
                built_entry(b, 0),
                built_entry(b, 1),
                built_entry(b, 2),
                built_entry(b, 3),
                built_entry(b, 4),
            ],
        },
        bootstrap: b.bootstrap,
        genesis: b.genesis,
        scene: b.scene,
        dag: b.dag,
        ledger: b.ledger,
    }
}

// ---------------------------------------------------------------------------
// Reading a file
// ---------------------------------------------------------------------------

/// Why [`open`] refuses a byte stream.
pub enum OpenFault {
    /// The first four bytes are these, not the magic.
    BadMagic(Seq<u8>),
    /// Any other error, as returned.
    Other(AuraError),
}

/// `e` is the error [`open`] returns for `f`.
pub open spec fn open_fault_is(e: AuraError, f: OpenFault) -> bool {
    match f {
        OpenFault::BadMagic(found) => e matches AuraError::BadMagic { expected, found: x }
            && expected == AURA_MAGIC && x@ == found,
        OpenFault::Other(x) => e == x,
    }
}

/// The section table entry that starts at `p`.
pub open spec fn entry_at(d: Seq<u8>, p: int) -> SectionEntry {
    SectionEntry { section_type: d[p], offset: u64_at(d, p + 1), length: u64_at(d, p + 9) }
}

/// The `n` section table entries of `d`.
pub open spec fn table_entries(d: Seq<u8>, n: nat) -> Seq<SectionEntry> {
    Seq::new(n, |k: int| entry_at(d, 10 + 17 * k))
}

/// The first entry of type `ty`.
pub open spec fn find_section(es: Seq<SectionEntry>, ty: u8) -> Option<SectionEntry>
    decreases es.len(),
{
    if es.len() == 0 {
        None
    } else if es[0].section_type == ty {
        Some(es[0])
    } else {
        find_section(es.drop_first(), ty)
    }
}

/// The bytes of the section of type `ty`, which must end before the footer
/// at `fs`.
pub open spec fn section_slice(d: Seq<u8>, fs: int, es: Seq<SectionEntry>, ty: u8) -> Result<
    Seq<u8>,
    AuraError,
> {
    match find_section(es, ty) {
        None => Err(AuraError::MissingSection(ty)),
        Some(e) => if e.offset + e.length > fs {
            Err(AuraError::UnexpectedEof)
        } else {
            Ok(d.subrange(e.offset as int, e.offset + e.length))
        },
    }
}

/// Decode every section of a file whose header and footer were accepted.
pub open spec fn open_sections(d: Seq<u8>, fs: int, header: HeaderView) -> Result<FileView, AuraError> {
    let es = header.sections;
    match section_slice(d, fs, es, SECTION_BOOTSTRAP) {
        Err(e) => Err(e),
        Ok(s0) => match sp_bytes(s0, 0) {
            Err(e) => Err(e.0),
            Ok((bootstrap, _)) => match section_slice(d, fs, es, SECTION_GENESIS) {
                Err(e) => Err(e),
                Ok(s1) => match sp_genesis(s1, 0) {
                    Err(e) => Err(e.0),
                    Ok((genesis, _)) => match section_slice(d, fs, es, SECTION_RECORDS) {
                        Err(e) => Err(e),
                        Ok(s2) => match sp_scene(s2, 0) {
                            Err(e) => Err(e.0),
                            Ok((scene, _)) => match section_slice(d, fs, es, SECTION_SEMANTIC) {
                                Err(e) => Err(e),
                                Ok(s3) => match sp_dag(s3, 0) {
                                    Err(e) => Err(e.0),
                                    Ok((dag, _)) => match section_slice(d, fs, es, SECTION_LEDGER) {
                                        Err(e) => Err(e),
                                        Ok(s4) => match sp_ledger(s4, 0) {
                                            Err(e) => Err(e.0),
                                            Ok((ledger, _)) => Ok(
                                                FileView { header, bootstrap, genesis, scene, dag, ledger },
                                            ),
                                        },
                                    },
                                },
                            },
                        },
                    },
                },
            },
        },
    }
}

/// What [`open`] makes of a byte stream: the magic, a readable major version
/// and a section table that fits are checked, then the CRC-32 and the
/// SHA-3-256 of the footer, then every section is decoded.
pub open spec fn spec_open(d: Seq<u8>) -> Result<FileView, OpenFault> {
    if d.len() < 10 + FOOTER_SIZE {
        Err(OpenFault::Other(AuraError::UnexpectedEof))
    } else if d.subrange(0, 4) != AURA_MAGIC@ {
        Err(OpenFault::BadMagic(d.subrange(0, 4)))
    } else if u16_at(d, 4) > VERSION_MAJOR {
        Err(OpenFault::Other(AuraError::UnsupportedVersion(u16_at(d, 4), u16_at(d, 6))))
    } else if 10 + 17 * u16_at(d, 8) > d.len() - FOOTER_SIZE {
        Err(OpenFault::Other(AuraError::UnexpectedEof))
    } else {
        let fs = d.len() - FOOTER_SIZE;
        let body = d.subrange(0, fs);
        if u32_at(d, fs) != spec_crc32(body) {
            Err(
                OpenFault::Other(
                    AuraError::ChecksumMismatch { stored: u32_at(d, fs), computed: spec_crc32(body) },
                ),
            )
        } else if spec_sha3_256(body) != d.subrange(fs + 4, fs + 36) {
            Err(OpenFault::Other(AuraError::HashMismatch))
        } else {
            let header = HeaderView {
                version_major: u16_at(d, 4),
                version_minor: u16_at(d, 6),
                sections: table_entries(d, u16_at(d, 8) as nat),
            };
            match open_sections(d, fs, header) {
                Err(e) => Err(OpenFault::Other(e)),
                Ok(f) => Ok(f),
            }
        }
    }
}


fn u16_le_at(d: &[u8], p: usize) -> (v: u16)
    requires
        p + 2 <= d@.len(),
    ensures
        v == u16_at(d@, p as int),
{
    (d[p] as u16) | ((d[p + 1] as u16) << 8)
}

fn u32_le_at(d: &[u8], p: usize) -> (v: u32)
    requires
        p + 4 <= d@.len(),
    ensures
        v == u32_at(d@, p as int),
{
    (d[p] as u32) | ((d[p + 1] as u32) << 8) | ((d[p + 2] as u32) << 16) | ((d[p + 3] as u32)
        << 24)
}

fn u64_le_at(d: &[u8], p: usize) -> (v: u64)
    requires
        p + 8 <= d@.len(),
    ensures
        v == u64_at(d@, p as int),
{
    (d[p] as u64) | ((d[p + 1] as u64) << 8) | ((d[p + 2] as u64) << 16) | ((d[p + 3] as u64)
        << 24) | ((d[p + 4] as u64) << 32) | ((d[p + 5] as u64) << 40) | ((d[p + 6] as u64) << 48)
        | ((d[p + 7] as u64) << 56)
}

/// The bytes of the first section of type `ty`.
fn section_bytes<'a>(data: &'a [u8], fs: usize, entries: &Vec<SectionEntry>, ty: u8) -> (r: Result<
    &'a [u8],
    AuraError,
>)
    requires
        fs <= data@.len(),
    ensures
        match section_slice(data@, fs as int, entries@, ty) {
            Ok(s) => r matches Ok(x) && x@ == s,
            Err(e) => r == Err::<&[u8], AuraError>(e),
        },
{
    let ghost es = entries@;
    let mut i: usize = 0;
    assert(es.subrange(0, es.len() as int) =~= es);
    while i < entries.len()
        invariant
            fs <= data@.len(),
            es == entries@,
            i <= es.len(),
            find_section(es, ty) == find_section(es.subrange(i as int, es.len() as int), ty),
        decreases es.len() - i,
    {
        let e = entries[i];
        let ghost rest = es.subrange(i as int, es.len() as int);
        assert(rest[0] == e);
        if e.section_type == ty {
            if e.offset > fs as u64 || e.length > fs as u64 - e.offset {
                return Err(AuraError::UnexpectedEof);
            }
            let start = e.offset as usize;
            let end = start + e.length as usize;
            return Ok(vstd::slice::slice_subrange(data, start, end));
        }
        assert(rest.drop_first() =~= es.subrange(i as int + 1, es.len() as int));
        i = i + 1;
    }
    Err(AuraError::MissingSection(ty))
}

/// Parse an AURA byte stream into a typed [`AuraFile`].
///
/// The stream must hold the magic, a major version this library reads, a
/// section table that ends before the footer, and a footer whose CRC-32 and
/// SHA-3-256 match everything before it; then every section is decoded from
/// the bytes its table entry points at. A section that would reach into the
/// footer is [`AuraError::UnexpectedEof`].
#[verifier::rlimit(60)]
#[verifier::spinoff_prover]
pub fn open(data: &[u8]) -> (res: Result<AuraFile, AuraError>)
    ensures
        match spec_open(data@) {
            Ok(v) => res matches Ok(f) && f@ == v,
            Err(flt) => res matches Err(e) && open_fault_is(e, flt),
        },
{
    if data.len() < 10 + FOOTER_SIZE {
        return Err(AuraError::UnexpectedEof);
    }
    let found: [u8; 4] = [data[0], data[1], data[2], data[3]];
    if found[0] != AURA_MAGIC[0] || found[1] != AURA_MAGIC[1] || found[2] != AURA_MAGIC[2]
        || found[3] != AURA_MAGIC[3] {
        proof {
            assert(found@ =~= data@.subrange(0, 4));
        }
        return Err(AuraError::BadMagic { expected: AURA_MAGIC, found });
    }
    assert(data@.subrange(0, 4) =~= AURA_MAGIC@);
    let version_major = u16_le_at(data, 4);
    let version_minor = u16_le_at(data, 6);
    if version_major > VERSION_MAJOR {
        return Err(AuraError::UnsupportedVersion(version_major, version_minor));
    }
    let count = u16_le_at(data, 8) as usize;
    let mut pos: usize = 10;
    let mut entries: Vec<SectionEntry> = Vec::new();
    let mut k: usize = 0;
    while k < count
        invariant
            data@.len() >= 10 + FOOTER_SIZE,
            data@.subrange(0, 4) == AURA_MAGIC@,
            u16_at(data@, 4) <= VERSION_MAJOR,
            count == u16_at(data@, 8),
            k <= count,
            pos == 10 + 17 * k,
            10 + 17 * k <= data@.len(),
            entries@ == table_entries(data@, k as nat),
        decreases count - k,
    {
        if pos + 17 > data.len() {
            proof {
                assert(10 + 17 * count > data@.len());
            }
            return Err(AuraError::UnexpectedEof);
        }
        let section_type = data[pos];
        let offset = u64_le_at(data, pos + 1);
        let length = u64_le_at(data, pos + 9);
        entries.push(SectionEntry { section_type, offset, length });
        proof {
            assert(entries@ =~= table_entries(data@, (k + 1) as nat));
        }
        pos = pos + 17;
        k = k + 1;
    }
    let footer_start = data.len() - FOOTER_SIZE;
    if footer_start < pos {
        return Err(AuraError::UnexpectedEof);
    }
    let crc_stored = u32_le_at(data, footer_start);
    let body = vstd::slice::slice_subrange(data, 0, footer_start);
    let crc_computed = crc32(body);
    if crc_stored != crc_computed {
        return Err(AuraError::ChecksumMismatch { stored: crc_stored, computed: crc_computed });
    }
    let hash_computed = sha3_256(body);
    let ghost header_v = HeaderView {
        version_major,
        version_minor,
        sections: entries@,
    };
    let ghost rest = match open_sections(data@, footer_start as int, header_v) {
        Err(e) => Err(OpenFault::Other(e)),
        Ok(f) => Ok::<FileView, OpenFault>(f),
    };
    assert(spec_open(data@) == if hash_computed@ != data@.subrange(footer_start + 4, footer_start + 36) {
        Err(OpenFault::Other(AuraError::HashMismatch))
    } else {
        rest
    });
    let n = data.len();
    let mut j: usize = 0;
    while j < 32
        invariant
            footer_start + 36 == n,
            n == data@.len(),
            spec_open(data@) == if hash_computed@ != data@.subrange(footer_start + 4, footer_start + 36) {
                Err(OpenFault::Other(AuraError::HashMismatch))
            } else {
                rest
            },
            j <= 32,
            forall|m: int| 0 <= m < j ==> hash_computed@[m] == data@[footer_start + 4 + m],
        decreases 32 - j,
    {
        if hash_computed[j] != data[footer_start + 4 + j] {
            proof {
                assert(data@.subrange(footer_start + 4, footer_start + 36)[j as int]
                    == data@[footer_start + 4 + j]);
            }
            return Err(AuraError::HashMismatch);
        }
        j = j + 1;
    }
    assert(hash_computed@ =~= data@.subrange(footer_start + 4, footer_start + 36));
    let bootstrap = {
        let mut r = Reader::new(section_bytes(data, footer_start, &entries, SECTION_BOOTSTRAP)?);
        Bootstrap::read(&mut r)?
    };
    let genesis = {
        let mut r = Reader::new(section_bytes(data, footer_start, &entries, SECTION_GENESIS)?);
        GenesisBlock::decode(&mut r)?
    };
    let scene = {
        let mut r = Reader::new(section_bytes(data, footer_start, &entries, SECTION_RECORDS)?);
        SceneRecord::decode(&mut r)?
    };
    let dag = {
        let mut r = Reader::new(section_bytes(data, footer_start, &entries, SECTION_SEMANTIC)?);
        SemanticDAG::decode(&mut r)?
    };
    let ledger = {
        let mut r = Reader::new(section_bytes(data, footer_start, &entries, SECTION_LEDGER)?);
        ProvenanceLedger::decode(&mut r)?
    };
    Ok(
        AuraFile {
            header: AuraHeader { version_major, version_minor, sections: entries },
            bootstrap,
            genesis,
            scene,
            dag,
            ledger,
        },
    )
}


// ---------------------------------------------------------------------------
// Building a file
// ---------------------------------------------------------------------------


// ---------------------------------------------------------------------------
// Building a file
// ---------------------------------------------------------------------------

/// Where each part of a layout lies.
proof fn lemma_layout(d: Seq<u8>, head: Seq<u8>, t: Seq<Seq<u8>>, s: Seq<Seq<u8>>)
    requires
        has_at(d, 0, layout(head, t, s)),
        head.len() == 10,
        t.len() == 5,
        s.len() == 5,
        forall|i: int| 0 <= i < 5 ==> (#[trigger] t[i]).len() == 17,
    ensures
        has_at(d, 0, head),
        forall|i: int| 0 <= i < 5 ==> has_at(d, 10 + 17 * i, #[trigger] t[i]),
        forall|i: int| 0 <= i < 5 ==> has_at(d, 95 + prefix_len(s, i), #[trigger] s[i]),
        layout(head, t, s).len() == 95 + prefix_len(s, 5),
{
    reveal(layout);
    let a0 = head;
    let a1 = a0 + t[0];
    let a2 = a1 + t[1];
    let a3 = a2 + t[2];
    let a4 = a3 + t[3];
    let a5 = a4 + t[4];
    let b0 = a5 + s[0];
    let b1 = b0 + s[1];
    let b2 = b1 + s[2];
    let b3 = b2 + s[3];
    lemma_has_at_split(d, 0, b3, s[4]);
    lemma_has_at_split(d, 0, b2, s[3]);
    lemma_has_at_split(d, 0, b1, s[2]);
    lemma_has_at_split(d, 0, b0, s[1]);
    lemma_has_at_split(d, 0, a5, s[0]);
    lemma_has_at_split(d, 0, a4, t[4]);
    lemma_has_at_split(d, 0, a3, t[3]);
    lemma_has_at_split(d, 0, a2, t[2]);
    lemma_has_at_split(d, 0, a1, t[1]);
    lemma_has_at_split(d, 0, a0, t[0]);
    assert(prefix_len(s, 0) == 0);
    assert(prefix_len(s, 1) == s[0].len());
    assert(prefix_len(s, 2) == prefix_len(s, 1) + s[1].len());
    assert(prefix_len(s, 3) == prefix_len(s, 2) + s[2].len());
    assert(prefix_len(s, 4) == prefix_len(s, 3) + s[3].len());
    assert(prefix_len(s, 5) == prefix_len(s, 4) + s[4].len());
    assert forall|i: int| 0 <= i < 5 implies has_at(d, 10 + 17 * i, #[trigger] t[i]) by {
        if i == 0 {
        } else if i == 1 {
        } else if i == 2 {
        } else if i == 3 {
        } else {
        }
    }
    assert forall|i: int| 0 <= i < 5 implies has_at(d, 95 + prefix_len(s, i), #[trigger] s[i]) by {
        if i == 0 {
        } else if i == 1 {
        } else if i == 2 {
        } else if i == 3 {
        } else {
        }
    }
}

proof fn lemma_section_count(b: BuilderView)
    ensures
        section_bodies(b).len() == 5,
{
    reveal(section_bodies);
}

/// Where each part of a built file lies.
proof fn lemma_built_layout(b: BuilderView)
    requires
        spec_sha3_256(file_body(b)).len() == 32,
    ensures
        ({
            let d = file_bytes(b);
            let fs = file_body(b).len() as int;
            &&& fs == section_offset(b, 5)
            &&& d.len() == fs + 36
            &&& has_at(d, 0, file_head())
            &&& forall|i: int|
                0 <= i < 5 ==> has_at(d, 10 + 17 * i, #[trigger] enc_entry(built_entry(b, i)))
            &&& forall|i: int|
                0 <= i < 5 ==> has_at(d, section_offset(b, i), #[trigger] section_bodies(b)[i])
            &&& d.subrange(0, fs) == file_body(b)
            &&& has_at(d, fs, le_u32(spec_crc32(file_body(b))))
            &&& d.subrange(fs + 4, fs + 36) == spec_sha3_256(file_body(b))
        }),
{
    let d = file_bytes(b);
    let body = file_body(b);
    let c = le_u32(spec_crc32(body));
    let h = spec_sha3_256(body);
    lemma_has_at_whole(d);
    lemma_has_at_split(d, 0, body + c, h);
    lemma_has_at_split(d, 0, body, c);
    let t = built_table(b);
    assert forall|i: int| 0 <= i < 5 implies (#[trigger] t[i]).len() == 17 by {}
    lemma_section_count(b);
    lemma_layout(d, file_head(), t, section_bodies(b));
    assert forall|i: int|
        0 <= i < 5 implies has_at(d, 10 + 17 * i, #[trigger] enc_entry(built_entry(b, i))) by {
        assert(t[i] == enc_entry(built_entry(b, i)));
    }
}


proof fn lemma_entry_at(d: Seq<u8>, p: int, e: SectionEntry)
    requires
        has_at(d, p, enc_entry(e)),
    ensures
        entry_at(d, p) == e,
{
    lemma_has_at_split3(d, p, seq![e.section_type], le_u64(e.offset), le_u64(e.length));
    lemma_sp_u8(d, p, e.section_type);
    lemma_sp_u64(d, p + 1, e.offset);
    lemma_sp_u64(d, p + 9, e.length);
}

/// The table of a built file lists the five sections in order.
proof fn lemma_built_table(b: BuilderView)
    requires
        spec_sha3_256(file_body(b)).len() == 32,
    ensures
        table_entries(file_bytes(b), 5) == seq![
            built_entry(b, 0),
            built_entry(b, 1),
            built_entry(b, 2),
            built_entry(b, 3),
            built_entry(b, 4),
        ],
{
    lemma_built_layout(b);
    let d = file_bytes(b);
    let es = seq![
        built_entry(b, 0),
        built_entry(b, 1),
        built_entry(b, 2),
        built_entry(b, 3),
        built_entry(b, 4),
    ];
    assert forall|k: int| 0 <= k < 5 implies #[trigger] table_entries(d, 5)[k] == es[k] by {
        lemma_entry_at(d, 10 + 17 * k, built_entry(b, k));
    }
    assert(table_entries(d, 5) =~= es);
}

/// In the table of a built file, section `ty` is the entry at `ty - 1`.
proof fn lemma_find_built(b: BuilderView, ty: u8)
    requires
        1 <= ty <= 5,
    ensures
        find_section(
            seq![
                built_entry(b, 0),
                built_entry(b, 1),
                built_entry(b, 2),
                built_entry(b, 3),
                built_entry(b, 4),
            ],
            ty,
        ) == Some(built_entry(b, ty - 1)),
{
    let es = seq![
        built_entry(b, 0),
        built_entry(b, 1),
        built_entry(b, 2),
        built_entry(b, 3),
        built_entry(b, 4),
    ];
    let es1 = es.drop_first();
    let es2 = es1.drop_first();
    let es3 = es2.drop_first();
    let es4 = es3.drop_first();
    assert(es1 =~= seq![built_entry(b, 1), built_entry(b, 2), built_entry(b, 3), built_entry(b, 4)]);
    assert(es2 =~= seq![built_entry(b, 2), built_entry(b, 3), built_entry(b, 4)]);
    assert(es3 =~= seq![built_entry(b, 3), built_entry(b, 4)]);
    assert(es4 =~= seq![built_entry(b, 4)]);
    assert(es[0].section_type == 1 && es1[0].section_type == 2 && es2[0].section_type == 3
        && es3[0].section_type == 4 && es4[0].section_type == 5);
    reveal_with_fuel(find_section, 6);
}

/// Section `i` of a built file is cut out of it exactly.
proof fn lemma_built_slice(b: BuilderView, i: int)
    requires
        0 <= i < 5,
        spec_sha3_256(file_body(b)).len() == 32,
        section_offset(b, 5) <= u64::MAX,
    ensures
        section_slice(
            file_bytes(b),
            section_offset(b, 5),
            seq![
                built_entry(b, 0),
                built_entry(b, 1),
                built_entry(b, 2),
                built_entry(b, 3),
                built_entry(b, 4),
            ],
            (i + 1) as u8,
        ) == Ok::<Seq<u8>, AuraError>(section_bodies(b)[i]),
{
    lemma_built_layout(b);
    lemma_find_built(b, (i + 1) as u8);
    lemma_section_count(b);
    let s = section_bodies(b);
    lemma_prefix_mono(s, i + 1, 5);
    lemma_prefix_mono(s, 0, i);
}

proof fn lemma_prefix_mono(s: Seq<Seq<u8>>, i: int, k: int)
    requires
        0 <= i <= k,
    ensures
        0 <= prefix_len(s, i) <= prefix_len(s, k),
    decreases k,
{
    if i < k {
        lemma_prefix_mono(s, i, k - 1);
    } else if i > 0 {
        lemma_prefix_mono(s, 0, i - 1);
    }
}


/// The table of a built file, as [`open`] reads it.
pub open spec fn built_header(b: BuilderView) -> HeaderView {
    HeaderView {
        version_major: VERSION_MAJOR,
        version_minor: VERSION_MINOR,
        sections: seq![
            built_entry(b, 0),
            built_entry(b, 1),
            built_entry(b, 2),
            built_entry(b, 3),
            built_entry(b, 4),
        ],
    }
}

/// `d` passes every check [`open`] makes before it decodes the sections:
/// its length, magic, version, section-table size, and a footer whose CRC-32
/// and SHA-3-256 match everything before it.
pub open spec fn footer_sound(d: Seq<u8>) -> bool {
    let fs = d.len() - FOOTER_SIZE;
    &&& d.len() >= 10 + FOOTER_SIZE
    &&& d.subrange(0, 4) == AURA_MAGIC@
    &&& u16_at(d, 4) <= VERSION_MAJOR
    &&& 10 + 17 * u16_at(d, 8) <= fs
    &&& u32_at(d, fs) == spec_crc32(d.subrange(0, fs))
    &&& spec_sha3_256(d.subrange(0, fs)) == d.subrange(fs + 4, fs + 36)
}

/// The bytes of a built file pass the checks before the sections.
proof fn lemma_built_footer_sound(b: BuilderView)
    requires
        spec_sha3_256(file_body(b)).len() == 32,
    ensures
        footer_sound(file_bytes(b)),
{
    lemma_open_built_header(b);
    let d = file_bytes(b);
    let fs = section_offset(b, 5);
    lemma_built_layout(b);
    lemma_built_table(b);
    lemma_section_count(b);
    lemma_prefix_mono(section_bodies(b), 0, 5);
    lemma_has_at_split(
        d,
        0,
        AURA_MAGIC@ + le_u16(VERSION_MAJOR) + le_u16(VERSION_MINOR),
        le_u16(5),
    );
    lemma_has_at_split3(d, 0, AURA_MAGIC@, le_u16(VERSION_MAJOR), le_u16(VERSION_MINOR));
    lemma_sp_u16(d, 4, VERSION_MAJOR);
    lemma_sp_u16(d, 6, VERSION_MINOR);
    lemma_sp_u16(d, 8, 5);
    lemma_sp_u32(d, fs, spec_crc32(file_body(b)));
}

/// A built file passes every check before its sections are decoded.
proof fn lemma_open_built_header(b: BuilderView)
    requires
        spec_sha3_256(file_body(b)).len() == 32,
    ensures
        spec_open(file_bytes(b)) == match open_sections(
            file_bytes(b),
            section_offset(b, 5),
            built_header(b),
        ) {
            Err(e) => Err(OpenFault::Other(e)),
            Ok(f) => Ok::<FileView, OpenFault>(f),
        },
{
    let d = file_bytes(b);
    let fs = section_offset(b, 5);
    let body = file_body(b);
    lemma_built_layout(b);
    lemma_built_table(b);
    lemma_section_count(b);
    lemma_prefix_mono(section_bodies(b), 0, 5);
    lemma_has_at_split(
        d,
        0,
        AURA_MAGIC@ + le_u16(VERSION_MAJOR) + le_u16(VERSION_MINOR),
        le_u16(5),
    );
    lemma_has_at_split3(d, 0, AURA_MAGIC@, le_u16(VERSION_MAJOR), le_u16(VERSION_MINOR));
    lemma_sp_u16(d, 4, VERSION_MAJOR);
    lemma_sp_u16(d, 6, VERSION_MINOR);
    lemma_sp_u16(d, 8, 5);
    lemma_sp_u32(d, fs, spec_crc32(body));
}

proof fn lemma_built_bodies(b: BuilderView)
    requires
        build_fits(b),
    ensures
        sp_bytes(section_bodies(b)[0], 0) matches Ok((x, _)) && x == b.bootstrap,
        sp_genesis(section_bodies(b)[1], 0) matches Ok((x, _)) && x == b.genesis,
        sp_scene(section_bodies(b)[2], 0) matches Ok((x, _)) && x == b.scene,
        sp_dag(section_bodies(b)[3], 0) matches Ok((x, _)) && x == b.dag,
        sp_ledger(section_bodies(b)[4], 0) matches Ok((x, _)) && x == b.ledger,
{
    reveal(section_bodies);
    let s = section_bodies(b);
    lemma_has_at_whole(s[0]);
    lemma_has_at_whole(s[1]);
    lemma_has_at_whole(s[2]);
    lemma_has_at_whole(s[3]);
    lemma_has_at_whole(s[4]);
    lemma_sp_bytes(s[0], 0, b.bootstrap);
    lemma_genesis_round_trip(s[1], 0, b.genesis);
    law_scene_round_trip(s[2], 0, b.scene);
    lemma_dag_round_trip(s[3], 0, b.dag);
    lemma_ledger_round_trip(s[4], 0, b.ledger);
}

/// Every section of a built file decodes to the builder's value.
proof fn lemma_open_built_sections(b: BuilderView)
    requires
        build_fits(b),
        spec_sha3_256(file_body(b)).len() == 32,
        section_offset(b, 5) <= u64::MAX,
    ensures
        open_sections(file_bytes(b), section_offset(b, 5), built_header(b)) == Ok::<
            FileView,
            AuraError,
        >(built_view(b)),
{
    lemma_built_slice(b, 0);
    lemma_built_slice(b, 1);
    lemma_built_slice(b, 2);
    lemma_built_slice(b, 3);
    lemma_built_slice(b, 4);
    lemma_built_bodies(b);
}


impl AuraBuilder {
    /// Start from the required components.
    pub fn new(
        bootstrap: Bootstrap,
        genesis: GenesisBlock,
        scene: SceneRecord,
        dag: SemanticDAG,
        ledger: ProvenanceLedger,
    ) -> (b: Self)
        ensures
            b.bootstrap == bootstrap,
            b.genesis == genesis,
            b.scene == scene,
            b.dag == dag,
            b.ledger == ledger,
    {
        AuraBuilder { bootstrap, genesis, scene, dag, ledger }
    }

    /// The five section bodies, each in its own buffer.
    fn encode_sections(&self) -> (parts: (Vec<u8>, Vec<u8>, Vec<u8>, Vec<u8>, Vec<u8>))
        ensures
            parts.0@ == section_bodies(self@)[0],
            parts.1@ == section_bodies(self@)[1],
            parts.2@ == section_bodies(self@)[2],
            parts.3@ == section_bodies(self@)[3],
            parts.4@ == section_bodies(self@)[4],
    {
        let mut boot = Writer::new();
        self.bootstrap.write(&mut boot);
        let mut genesis_w = Writer::new();
        self.genesis.encode(&mut genesis_w);
        let mut rec = Writer::new();
        self.scene.encode(&mut rec);
        let mut sem = Writer::new();
        self.dag.encode(&mut sem);
        let mut led = Writer::new();
        self.ledger.encode(&mut led);
        proof {
            reveal(section_bodies);
        }
        (boot.into_inner(), genesis_w.into_inner(), rec.into_inner(), sem.into_inner(), led.into_inner())
    }

    /// Serialize the builder into a complete AURA byte stream.
    ///
    /// Opening the result gives back the builder's sections whenever every
    /// count and length fits its prefix.
    pub fn build(&self) -> (r: Result<Vec<u8>, AuraError>)
        requires
            file_len(self@) <= usize::MAX,
        ensures
            r matches Ok(v) && v@ == file_bytes(self@) && (build_fits(self@) ==> spec_open(v@)
                == Ok::<FileView, OpenFault>(built_view(self@))),
            // Whatever the sections hold, the file passes the footer checks.
            r matches Ok(v) && footer_sound(v@),
    {
        let ghost bv = self@;
        let parts = self.encode_sections();
        let body = assemble(&parts, Ghost(bv));
        let crc = crc32(body.as_slice());
        let hash = sha3_256(body.as_slice());
        let mut w = Writer::new();
        w.put_raw(body.as_slice());
        w.put_u32(crc);
        w.put_raw(vstd::array::array_as_slice(&hash));
        let v = w.into_inner();
        proof {
            assert(v@ =~= file_bytes(bv));
            lemma_built_footer_sound(bv);
            if build_fits(bv) {
                lemma_open_built_header(bv);
                lemma_open_built_sections(bv);
            }
        }
        Ok(v)
    }
}

fn put_entry(w: &mut Writer, section_type: u8, offset: u64, length: u64)
    ensures
        final(w)@ == old(w)@ + enc_entry(SectionEntry { section_type, offset, length }),
{
    w.put_u8(section_type);
    w.put_u64(offset);
    w.put_u64(length);
    assert(w@ =~= old(w)@ + enc_entry(SectionEntry { section_type, offset, length }));
}

/// Header, table and sections of a file whose section bodies are `parts`.
fn assemble(
    parts: &(Vec<u8>, Vec<u8>, Vec<u8>, Vec<u8>, Vec<u8>),
    Ghost(bv): Ghost<BuilderView>,
) -> (body: Vec<u8>)
    requires
        parts.0@ == section_bodies(bv)[0],
        parts.1@ == section_bodies(bv)[1],
        parts.2@ == section_bodies(bv)[2],
        parts.3@ == section_bodies(bv)[3],
        parts.4@ == section_bodies(bv)[4],
        file_len(bv) <= usize::MAX,
    ensures
        body@ == file_body(bv),
{
    let ghost s = section_bodies(bv);
    proof {
        lemma_section_count(bv);
        assert(prefix_len(s, 0) == 0);
        assert(prefix_len(s, 1) == prefix_len(s, 0) + s[0].len());
        assert(prefix_len(s, 2) == prefix_len(s, 1) + s[1].len());
        assert(prefix_len(s, 3) == prefix_len(s, 2) + s[2].len());
        assert(prefix_len(s, 4) == prefix_len(s, 3) + s[3].len());
        assert(prefix_len(s, 5) == prefix_len(s, 4) + s[4].len());
    }
    let o0: u64 = 95;
    let o1: u64 = o0 + parts.0.len() as u64;
    let o2: u64 = o1 + parts.1.len() as u64;
    let o3: u64 = o2 + parts.2.len() as u64;
    let o4: u64 = o3 + parts.3.len() as u64;
    let mut out = Writer::new();
    out.put_raw(vstd::array::array_as_slice(&AURA_MAGIC));
    out.put_u16(VERSION_MAJOR);
    out.put_u16(VERSION_MINOR);
    out.put_u16(5);
    let ghost head = out@;
    put_entry(&mut out, SECTION_BOOTSTRAP, o0, parts.0.len() as u64);
    put_entry(&mut out, SECTION_GENESIS, o1, parts.1.len() as u64);
    put_entry(&mut out, SECTION_RECORDS, o2, parts.2.len() as u64);
    put_entry(&mut out, SECTION_SEMANTIC, o3, parts.3.len() as u64);
    put_entry(&mut out, SECTION_LEDGER, o4, parts.4.len() as u64);
    out.put_raw(parts.0.as_slice());
    out.put_raw(parts.1.as_slice());
    out.put_raw(parts.2.as_slice());
    out.put_raw(parts.3.as_slice());
    out.put_raw(parts.4.as_slice());
    let body = out.into_inner();
    proof {
        reveal(layout);
        let t = built_table(bv);
        assert(head =~= file_head());
        assert(t[0] == enc_entry(SectionEntry { section_type: SECTION_BOOTSTRAP, offset: o0, length: parts.0@.len() as u64 }));
        assert(t[1] == enc_entry(SectionEntry { section_type: SECTION_GENESIS, offset: o1, length: parts.1@.len() as u64 }));
        assert(t[2] == enc_entry(SectionEntry { section_type: SECTION_RECORDS, offset: o2, length: parts.2@.len() as u64 }));
        assert(t[3] == enc_entry(SectionEntry { section_type: SECTION_SEMANTIC, offset: o3, length: parts.3@.len() as u64 }));
        assert(t[4] == enc_entry(SectionEntry { section_type: SECTION_LEDGER, offset: o4, length: parts.4@.len() as u64 }));
        assert(body@ =~= file_body(bv));
    }
    body
}


proof fn lemma_u32_at_bytes(d: Seq<u8>, q: int)
    requires
        0 <= q,
        q + 4 <= d.len(),
    ensures
        le_u32(u32_at(d, q)) == d.subrange(q, q + 4),
{
    let a = d[q];
    let b = d[q + 1];
    let c = d[q + 2];
    let e = d[q + 3];
    let v = u32_at(d, q);
    assert(v == (a as u32) | ((b as u32) << 8u32) | ((c as u32) << 16u32) | ((e as u32) << 24u32));
    assert(((v & 0xff) as u8 == a && ((v >> 8u32) & 0xff) as u8 == b && ((v >> 16u32) & 0xff) as u8
        == c && ((v >> 24u32) & 0xff) as u8 == e)) by (bit_vector)
        requires
            v == (a as u32) | ((b as u32) << 8u32) | ((c as u32) << 16u32) | ((e as u32) << 24u32),
    ;
    assert(le_u32(v) =~= d.subrange(q, q + 4));
}

/// Every stream [`open`] accepts passes its footer checks.
pub proof fn lemma_accepted_is_footer_sound(d: Seq<u8>)
    requires
        spec_open(d) is Ok,
    ensures
        footer_sound(d),
{
}

/// Changing any one byte of a stream that passes the footer checks (every
/// stream [`open`] accepts, and every file [`AuraBuilder::build`] writes,
/// whatever its sections hold) makes [`open`] refuse it: a change before
/// the footer breaks the CRC-32, one in the
/// stored CRC-32 no longer matches it, and one in the stored SHA-3-256 no
/// longer matches the digest. Past the magic, version and section count
/// (the first ten bytes), the refusal is [`AuraError::ChecksumMismatch`] or
/// [`AuraError::HashMismatch`].
#[verifier::rlimit(50)]
#[verifier::spinoff_prover]
pub proof fn law_open_refuses_changed_byte(d: Seq<u8>, p: int, v: u8)
    requires
        footer_sound(d),
        0 <= p < d.len(),
        v != d[p],
    ensures
        spec_open(d.update(p, v)) is Err,
        10 <= p ==> (spec_open(d.update(p, v)) matches Err(OpenFault::Other(e)) && (
        e is ChecksumMismatch || e is HashMismatch)),
{
    let d2 = d.update(p, v);
    let fs = d.len() - FOOTER_SIZE;
    if 10 <= p {
        assert(d2.subrange(0, 4) =~= d.subrange(0, 4));
        assert(d2[4] == d[4] && d2[5] == d[5] && d2[6] == d[6] && d2[7] == d[7]);
        assert(d2[8] == d[8] && d2[9] == d[9]);
    }
    if d2.len() >= 10 + FOOTER_SIZE && d2.subrange(0, 4) == AURA_MAGIC@ && u16_at(d2, 4)
        <= VERSION_MAJOR && 10 + 17 * u16_at(d2, 8) <= d2.len() - FOOTER_SIZE {
        let body = d.subrange(0, fs);
        let body2 = d2.subrange(0, fs);
        if p < fs {
            assert(body2 =~= body.update(p, v));
            crate::codec::law_crc_detects_byte_change(body, p, v);
            assert(d2.subrange(fs, fs + 4) =~= d.subrange(fs, fs + 4));
            lemma_u32_at_bytes(d, fs);
            lemma_u32_at_bytes(d2, fs);
            lemma_u32_bytes_inj(u32_at(d, fs), u32_at(d2, fs));
        } else if p < fs + 4 {
            assert(body2 =~= body);
            lemma_u32_at_bytes(d, fs);
            lemma_u32_at_bytes(d2, fs);
            assert(d2.subrange(fs, fs + 4)[p - fs] != d.subrange(fs, fs + 4)[p - fs]);
        } else {
            assert(body2 =~= body);
            assert(d2.subrange(fs, fs + 4) =~= d.subrange(fs, fs + 4));
            lemma_u32_at_bytes(d, fs);
            lemma_u32_at_bytes(d2, fs);
            lemma_u32_bytes_inj(u32_at(d, fs), u32_at(d2, fs));
            assert(d2.subrange(fs + 4, fs + 36)[p - fs - 4] != d.subrange(fs + 4, fs + 36)[p - fs - 4]);
        }
    }
}

proof fn lemma_u32_bytes_inj(x: u32, y: u32)
    requires
        le_u32(x) == le_u32(y),
    ensures
        x == y,
{
    crate::codec::lemma_u32_bytes(x);
    crate::codec::lemma_u32_bytes(y);
    assert(le_u32(x)[0] == le_u32(y)[0]);
    assert(le_u32(x)[1] == le_u32(y)[1]);
    assert(le_u32(x)[2] == le_u32(y)[2]);
    assert(le_u32(x)[3] == le_u32(y)[3]);
}

// ---------------------------------------------------------------------------
// Creating a file from an image
// ---------------------------------------------------------------------------

/// The Tier-0 base layer [`encode_tier0`] makes of a `w × h` image with
/// pixel bytes `d`, downsampled by `scale`.
pub open spec fn tier0_view(d: Seq<u8>, w: int, h: int, scale: u32) -> Tier0View {
    let s = effective_scale(scale);
    let bw = ceil_div(w, s);
    let bh = ceil_div(h, s);
    Tier0View {
        base_width: bw as u32,
        base_height: bh as u32,
        orig_width: w as u32,
        orig_height: h as u32,
        data: Seq::new((bw * bh * 3) as nat, |i: int| tier0_byte(d, w, h, s, bw, i)),
    }
}

/// Software name the creation step records in the ledger.
pub open spec fn create_software() -> Seq<char> {
    "aura-cli/create"@
}

/// What [`create_file`] builds from an image (pixel bytes `d`, `w × h`), a
/// downsampling `scale`, a semantic graph, a device key's secret, a device
/// id and a capture timestamp: the default bootstrap; a genesis block over
/// the image's SHA-3-256 signed by the key; one RGB luminance record holding
/// the Tier-0 base layer at 8 bits; the graph; and a ledger rooted at the
/// image hash with one signed `Capture` entry.
pub open spec fn create_view(
    d: Seq<u8>,
    w: int,
    h: int,
    scale: u32,
    dag: DagView,
    secret: Seq<u8>,
    device_id: Seq<u8>,
    timestamp: u64,
) -> BuilderView {
    let hash = spec_sha3_256(d);
    let t = tier0_view(d, w, h, scale);
    let empty = LedgerView {
        signer: spec_ed25519_public(secret),
        root_hash: hash,
        current_hash: hash,
        entries: Seq::empty(),
    };
    BuilderView {
        bootstrap: AURA_BOOTSTRAP_WASM@,
        genesis: GenesisView {
            data_hash: hash,
            device_id,
            timestamp,
            hardware_sig: spec_ed25519_sign(secret, genesis_msg(hash, device_id, timestamp)),
        },
        scene: seq![
            ChildView::LuminanceChroma(
                LumaView {
                    width: t.base_width,
                    height: t.base_height,
                    depth: 8,
                    sampling: 1,
                    data: t.data,
                },
            ),
        ],
        dag,
        ledger: appended(empty, OpType::Capture, create_software(), secret),
    }
}

impl AuraBuilder {
    /// Length of the file [`AuraBuilder::build`] writes, where it fits the
    /// address space.
    fn built_len(&self) -> (n: Option<usize>)
        ensures
            n matches Some(x) ==> x == file_len(self@),
            n is None ==> file_len(self@) > usize::MAX,
    {
        let parts = self.encode_sections();
        proof {
            reveal(section_bodies);
            reveal_with_fuel(prefix_len, 6);
        }
        let ghost sb = section_bodies(self@);
        assert(prefix_len(sb, 5) == sb[0].len() + sb[1].len() + sb[2].len() + sb[3].len()
            + sb[4].len());
        let mut total: usize = 95;
        match total.checked_add(parts.0.len()) {
            Some(t) => total = t,
            None => return None,
        }
        match total.checked_add(parts.1.len()) {
            Some(t) => total = t,
            None => return None,
        }
        match total.checked_add(parts.2.len()) {
            Some(t) => total = t,
            None => return None,
        }
        match total.checked_add(parts.3.len()) {
            Some(t) => total = t,
            None => return None,
        }
        match total.checked_add(parts.4.len()) {
            Some(t) => total = t,
            None => return None,
        }
        match total.checked_add(FOOTER_SIZE) {
            Some(t) => Some(t),
            None => None,
        }
    }
}

/// Create an AURA file from an image: downsample it into a Tier-0 base
/// layer (`scale` 0 counts as 1), sign a genesis block over the SHA-3-256 of
/// its pixels with `key`, open a ledger rooted at that hash with one
/// `Capture` entry by `aura-cli/create`, and build the file around the
/// default bootstrap and `dag`.
///
/// The file is refused with [`AuraError::Unsupported`] only where its length
/// would not fit the address space. Where every length prefix holds its
/// count, [`open`] reads back exactly what was built.
pub fn create_file(
    img: &RgbImage,
    scale: u32,
    dag: SemanticDAG,
    key: &SigningKey,
    device_id: [u8; 16],
    timestamp: u64,
) -> (r: Result<Vec<u8>, AuraError>)
    requires
        img.wf(),
    ensures
        r is Ok <==> file_len(
            create_view(
                img.data@,
                img.width as int,
                img.height as int,
                scale,
                dag@,
                key.spec_secret(),
                device_id@,
                timestamp,
            ),
        ) <= usize::MAX,
        r matches Ok(v) ==> {
            let b = create_view(
                img.data@,
                img.width as int,
                img.height as int,
                scale,
                dag@,
                key.spec_secret(),
                device_id@,
                timestamp,
            );
            &&& v@ == file_bytes(b)
            &&& build_fits(b) ==> spec_open(v@) == Ok::<FileView, OpenFault>(built_view(b))
        },
        r matches Err(e) ==> e matches AuraError::Unsupported(_),
{
    let ghost bv = create_view(
        img.data@,
        img.width as int,
        img.height as int,
        scale,
        dag@,
        key.spec_secret(),
        device_id@,
        timestamp,
    );
    let sensor_hash = sha3_256(img.data.as_slice());
    let base = encode_tier0(img, scale);
    proof {
        let tv = tier0_view(img.data@, img.width as int, img.height as int, scale);
        assert(base@.data =~= tv.data);
    }
    let lum = LuminanceChromaRecord {
        width: base.base_width(),
        height: base.base_height(),
        depth: 8,
        sampling: 1,
        data: vstd::slice::slice_to_vec(base.data()),
    };
    let mut scene = SceneRecord::new();
    scene.push(SceneChild::LuminanceChroma(lum));
    let genesis = GenesisBlock::sign(key, sensor_hash, device_id, timestamp);
    let mut ledger = ProvenanceLedger::new(key, sensor_hash);
    let _ = ledger.append(OpType::Capture, "aura-cli/create", key);
    let builder = AuraBuilder::new(Bootstrap::with_default_wasm(), genesis, scene, dag, ledger);
    proof {
        reveal_strlit("aura-cli/create");
        assert(builder@.scene =~= bv.scene);
        assert(builder@.ledger.entries =~= bv.ledger.entries);
        assert(builder@ == bv);
    }
    match builder.built_len() {
        None => Err(AuraError::Unsupported("file too large to build in memory".to_owned())),
        Some(_) => builder.build(),
    }
}

/// The first luminance/chroma record of a scene, if there is one.
pub open spec fn first_luma(s: Seq<ChildView>) -> Option<LumaView>
    decreases s.len(),
{
    if s.len() == 0 {
        None
    } else {
        match s[0] {
            ChildView::LuminanceChroma(l) => Some(l),
            _ => first_luma(s.drop_first()),
        }
    }
}

impl AuraFile {
    /// The Tier-0 image the scene's first luminance/chroma record holds: its
    /// width, height and sample bytes; `None` where the scene has no such
    /// record.
    pub fn luminance_image(&self) -> (r: Option<RgbImage>)
        ensures
            match first_luma(self.scene@) {
                None => r is None,
                Some(l) => r matches Some(img) && img.width == l.width && img.height == l.height
                    && img.data@ == l.data,
            },
    {
        let ghost sv = self.scene@;
        let n = self.scene.children.len();
        let mut i: usize = 0;
        assert(sv.subrange(0, n as int) =~= sv);
        while i < n
            invariant
                n == self.scene.children@.len(),
                sv == self.scene@,
                sv.len() == n,
                i <= n,
                first_luma(sv) == first_luma(sv.subrange(i as int, n as int)),
            decreases n - i,
        {
            let c = &self.scene.children[i];
            assert(sv[i as int] == c@);
            assert(sv.subrange(i as int, n as int).drop_first() =~= sv.subrange(i + 1, n as int));
            match c.as_luminance_chroma() {
                Some(l) => {
                    return Some(
                        RgbImage {
                            width: l.width,
                            height: l.height,
                            data: vstd::slice::slice_to_vec(l.data.as_slice()),
                        },
                    );
                },
                None => {},
            }
            i = i + 1;
        }
        assert(sv.subrange(n as int, n as int).len() == 0);
        None
    }
}

} // verus!
