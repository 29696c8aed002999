//! Adaptive neural encoding: the dual-layer (Tier 0 / Tier 1) progressive system.
//!
//! * **Tier 0** is a zero-compute base layer: a box-downsampled RGB image that
//!   any device can display instantly. It is stored losslessly (the downsample
//!   is exact), so `encode → decode` is pixel-true at base resolution.
//! * **Tier 1** would store a small neural reconstruction payload; on an NPU it
//!   reconstructs the master-resolution image. This build provides the payload
//!   container and reports reconstruction as unsupported.
use crate::codec::{
    enc_bytes, enc_str, has_at, le_u32, lemma_has_at_split, lemma_sp_bytes, lemma_sp_str,
    lemma_sp_u32, sp_bytes, sp_str, sp_u32, Reader, Writer,
};
use crate::error::AuraError;
use vstd::prelude::*;
use vstd::utf8::*;

verus! {

broadcast use vstd::utf8::encode_utf8_decode_utf8, vstd::utf8::encode_utf8_valid_utf8;

// ---------------------------------------------------------------------------
// RGB images
// ---------------------------------------------------------------------------

/// Offset of the first byte of pixel `(x, y)` in a row-major RGB buffer of
/// width `w`.
pub open spec fn pixel_index(w: int, x: int, y: int) -> int {
    (y * w + x) * 3
}

proof fn lemma_pixel_in_bounds(w: int, h: int, x: int, y: int)
    by (nonlinear_arith)
    requires
        0 <= x < w,
        0 <= y < h,
    ensures
        0 <= y * w,
        y * w + x < w * h,
        0 <= pixel_index(w, x, y),
        pixel_index(w, x, y) + 3 <= w * h * 3,
{
}

/// A simple contiguous RGB image (`data.len() == width * height * 3`).
#[derive(Debug, Clone, PartialEq, Eq)]
pub struct RgbImage {
    /// Width in pixels.
    pub width: u32,
    /// Height in pixels.
    pub height: u32,
    /// Interleaved `R,G,B` bytes, row-major.
    pub data: Vec<u8>,
}

impl RgbImage {
    /// The buffer holds exactly three bytes per pixel.
    pub open spec fn wf(&self) -> bool {
        self.data@.len() == self.width * self.height * 3
    }

    /// Allocate a zeroed image of the given size.
    pub fn new(width: u32, height: u32) -> (img: Self)
        requires
            width * height * 3 <= usize::MAX,
        ensures
            img.width == width,
            img.height == height,
            img.wf(),
            forall|i: int| 0 <= i < img.data@.len() ==> img.data@[i] == 0,
    {
        proof {
            assert(0 <= width * height) by (nonlinear_arith);
        }
        let n = width as usize * height as usize * 3;
        let mut data: Vec<u8> = Vec::new();
        let mut i: usize = 0;
        while i < n
            invariant
                i <= n,
                data@.len() == i,
                forall|k: int| 0 <= k < i ==> data@[k] == 0,
            decreases n - i,
        {
            data.push(0);
            i = i + 1;
        }
        RgbImage { width, height, data }
    }

    /// Total pixel count.
    pub fn pixels(&self) -> (n: usize)
        requires
            self.width * self.height <= usize::MAX,
        ensures
            n == self.width * self.height,
    {
        self.width as usize * self.height as usize
    }

    /// Read the `(r, g, b)` triple at `(x, y)`.
    pub fn pixel(&self, x: u32, y: u32) -> (rgb: (u8, u8, u8))
        requires
            self.wf(),
            x < self.width,
            y < self.height,
        ensures
            rgb.0 == self.data@[pixel_index(self.width as int, x as int, y as int)],
            rgb.1 == self.data@[pixel_index(self.width as int, x as int, y as int) + 1],
            rgb.2 == self.data@[pixel_index(self.width as int, x as int, y as int) + 2],
    {
        proof {
            lemma_pixel_in_bounds(self.width as int, self.height as int, x as int, y as int);
        }
        let len = self.data.len();
        let yw = y as usize * self.width as usize;
        let i = (yw + x as usize) * 3;
        (self.data[i], self.data[i + 1], self.data[i + 2])
    }

    /// Write the `(r, g, b)` triple at `(x, y)`.
    pub fn set_pixel(&mut self, x: u32, y: u32, rgb: (u8, u8, u8))
        requires
            old(self).wf(),
            x < old(self).width,
            y < old(self).height,
        ensures
            final(self).width == old(self).width,
            final(self).height == old(self).height,
            final(self).data@ == old(self).data@.update(
                pixel_index(old(self).width as int, x as int, y as int),
                rgb.0,
            ).update(pixel_index(old(self).width as int, x as int, y as int) + 1, rgb.1).update(
                pixel_index(old(self).width as int, x as int, y as int) + 2,
                rgb.2,
            ),
    {
        proof {
            lemma_pixel_in_bounds(self.width as int, self.height as int, x as int, y as int);
        }
        let len = self.data.len();
        let yw = y as usize * self.width as usize;
        let i = (yw + x as usize) * 3;
        self.data.set(i, rgb.0);
        self.data.set(i + 1, rgb.1);
        self.data.set(i + 2, rgb.2);
    }
}


// ---------------------------------------------------------------------------
// Tier 0: box downsampling
// ---------------------------------------------------------------------------

/// Sum of channel `c` over the pixels `x0 <= x < x1` of row `y`.
pub open spec fn row_sum(d: Seq<u8>, w: int, y: int, x0: int, x1: int, c: int) -> int
    decreases x1 - x0,
{
    if x1 <= x0 {
        0
    } else {
        row_sum(d, w, y, x0, x1 - 1, c) + d[pixel_index(w, x1 - 1, y) + c]
    }
}

/// Sum of channel `c` over the pixels of rows `y0 <= y < y1`, columns
/// `x0 <= x < x1`.
pub open spec fn block_sum(d: Seq<u8>, w: int, x0: int, x1: int, y0: int, y1: int, c: int) -> int
    decreases y1 - y0,
{
    if y1 <= y0 {
        0
    } else {
        block_sum(d, w, x0, x1, y0, y1 - 1, c) + row_sum(d, w, y1 - 1, x0, x1, c)
    }
}

/// `a / b` rounded up.
pub open spec fn ceil_div(a: int, b: int) -> int {
    a / b + if a % b == 0 {
        0int
    } else {
        1int
    }
}

/// End of a block of length `s` that starts at `start`, cut at `limit`.
pub open spec fn span_end(start: int, s: int, limit: int) -> int {
    if limit - start < s {
        limit
    } else {
        start + s
    }
}

/// The block edge [`encode_tier0`] uses for a requested `scale` (0 counts as 1).
pub open spec fn effective_scale(scale: u32) -> int {
    if scale == 0 {
        1
    } else {
        scale as int
    }
}

/// Mean of channel `c` over the block `(bx, by)` of edge `s` of a `w × h`
/// image, rounded down; blocks at the right and bottom edges are cut to the
/// image.
pub open spec fn block_mean(d: Seq<u8>, w: int, h: int, s: int, bx: int, by: int, c: int) -> int {
    let x0 = bx * s;
    let y0 = by * s;
    let x1 = span_end(x0, s, w);
    let y1 = span_end(y0, s, h);
    block_sum(d, w, x0, x1, y0, y1, c) / ((x1 - x0) * (y1 - y0))
}

/// Byte `i` of the Tier-0 base layer of a `w × h` image downsampled by `s`,
/// the base layer being `bw` pixels wide.
pub open spec fn tier0_byte(d: Seq<u8>, w: int, h: int, s: int, bw: int, i: int) -> u8 {
    let p = i / 3;
    block_mean(d, w, h, s, p % bw, p / bw, i % 3) as u8
}

proof fn lemma_row_sum_bound(d: Seq<u8>, w: int, y: int, x0: int, x1: int, c: int)
    requires
        x0 <= x1,
    ensures
        0 <= row_sum(d, w, y, x0, x1, c) <= 255 * (x1 - x0),
    decreases x1 - x0,
{
    if x0 < x1 {
        lemma_row_sum_bound(d, w, y, x0, x1 - 1, c);
    }
}

proof fn lemma_block_sum_bound(d: Seq<u8>, w: int, x0: int, x1: int, y0: int, y1: int, c: int)
    requires
        x0 <= x1,
        y0 <= y1,
    ensures
        0 <= block_sum(d, w, x0, x1, y0, y1, c) <= 255 * (x1 - x0) * (y1 - y0),
    decreases y1 - y0,
{
    if y0 < y1 {
        lemma_block_sum_bound(d, w, x0, x1, y0, y1 - 1, c);
        lemma_row_sum_bound(d, w, y1 - 1, x0, x1, c);
        assert(255 * (x1 - x0) * (y1 - 1 - y0) + 255 * (x1 - x0) == 255 * (x1 - x0) * (y1 - y0))
            by (nonlinear_arith);
    }
}

/// A block index below the rounded-up block count starts inside the image.
proof fn lemma_block_start(w: int, s: int, b: int)
    requires
        0 <= w,
        1 <= s,
        0 <= b < ceil_div(w, s),
    ensures
        0 <= b * s < w,
        ceil_div(w, s) <= w,
{
    let q = w / s;
    let r = w % s;
    vstd::arithmetic::div_mod::lemma_fundamental_div_mod(w, s);
    assert(0 <= r < s);
    assert(w == s * q + r);
    assert(0 <= q) by {
        vstd::arithmetic::div_mod::lemma_div_pos_is_pos(w, s);
    }
    if r == 0 {
        assert(b <= q - 1);
        assert(0 <= b * s <= (q - 1) * s) by (nonlinear_arith)
            requires
                0 <= b <= q - 1,
                1 <= s,
        ;
        assert((q - 1) * s == s * q - s) by (nonlinear_arith);
        assert(q <= s * q) by (nonlinear_arith)
            requires
                0 <= q,
                1 <= s,
        ;
    } else {
        assert(b <= q);
        assert(0 <= b * s <= q * s) by (nonlinear_arith)
            requires
                0 <= b <= q,
                1 <= s,
        ;
        assert(q * s == s * q) by (nonlinear_arith);
        assert(q <= s * q) by (nonlinear_arith)
            requires
                0 <= q,
                1 <= s,
        ;
    }
}

/// Position `p` of the row-major pixel `(x, y)` in a grid of width `bw`.
proof fn lemma_grid_index(bw: int, x: int, y: int, c: int)
    requires
        0 <= x < bw,
        0 <= y,
        0 <= c < 3,
    ensures
        ((y * bw + x) * 3 + c) / 3 == y * bw + x,
        ((y * bw + x) * 3 + c) % 3 == c,
        (y * bw + x) % bw == x,
        (y * bw + x) / bw == y,
{
    vstd::arithmetic::div_mod::lemma_fundamental_div_mod_converse(
        (y * bw + x) * 3 + c,
        3,
        y * bw + x,
        c,
    );
    vstd::arithmetic::div_mod::lemma_fundamental_div_mod_converse(y * bw + x, bw, y, x);
}

/// Channel means of the pixels of rows `y0 <= y < y1`, columns
/// `x0 <= x < x1`, rounded down. The sums are kept in 128 bits, wide enough
/// for any block of a 32-bit-sized image.
fn block_mean_rgb(img: &RgbImage, x0: u32, x1: u32, y0: u32, y1: u32) -> (rgb: (u8, u8, u8))
    requires
        img.wf(),
        x0 < x1 <= img.width,
        y0 < y1 <= img.height,
    ensures
        rgb.0 == block_sum(img.data@, img.width as int, x0 as int, x1 as int, y0 as int, y1 as int, 0)
            / ((x1 - x0) * (y1 - y0)),
        rgb.1 == block_sum(img.data@, img.width as int, x0 as int, x1 as int, y0 as int, y1 as int, 1)
            / ((x1 - x0) * (y1 - y0)),
        rgb.2 == block_sum(img.data@, img.width as int, x0 as int, x1 as int, y0 as int, y1 as int, 2)
            / ((x1 - x0) * (y1 - y0)),
{
    let ghost d = img.data@;
    let ghost w = img.width as int;
    let ghost bx = (x1 - x0) as int;
    let ghost by_ = (y1 - y0) as int;
    proof {
        assert(bx * by_ * 255 <= 0x1_0000_0000 * 0x1_0000_0000 * 255) by (nonlinear_arith)
            requires
                0 < bx < 0x1_0000_0000,
                0 < by_ < 0x1_0000_0000,
        ;
    }
    let mut sr: u128 = 0;
    let mut sg: u128 = 0;
    let mut sb: u128 = 0;
    let mut y = y0;
    while y < y1
        invariant
            img.wf(),
            d == img.data@,
            w == img.width,
            x0 < x1 <= img.width,
            y0 <= y <= y1 <= img.height,
            bx == x1 - x0,
            by_ == y1 - y0,
            bx * by_ * 255 <= 0x1_0000_0000 * 0x1_0000_0000 * 255,
            sr == block_sum(d, w, x0 as int, x1 as int, y0 as int, y as int, 0),
            sg == block_sum(d, w, x0 as int, x1 as int, y0 as int, y as int, 1),
            sb == block_sum(d, w, x0 as int, x1 as int, y0 as int, y as int, 2),
        decreases y1 - y,
    {
        proof {
            lemma_block_sum_bound(d, w, x0 as int, x1 as int, y0 as int, y as int, 0);
            lemma_block_sum_bound(d, w, x0 as int, x1 as int, y0 as int, y as int, 1);
            lemma_block_sum_bound(d, w, x0 as int, x1 as int, y0 as int, y as int, 2);
            assert(255 * bx * (y - y0) + 255 * bx <= bx * by_ * 255) by (nonlinear_arith)
                requires
                    0 <= y - y0 < by_,
                    0 < bx,
            ;
        }
        let ghost base_r = sr as int;
        let ghost base_g = sg as int;
        let ghost base_b = sb as int;
        let mut x = x0;
        while x < x1
            invariant
                img.wf(),
                d == img.data@,
                w == img.width,
                x0 <= x <= x1 <= img.width,
                y0 <= y < y1 <= img.height,
                bx == x1 - x0,
                255 * bx * (y - y0) + 255 * bx <= 0x1_0000_0000 * 0x1_0000_0000 * 255,
                0 <= base_r <= 255 * bx * (y - y0),
                0 <= base_g <= 255 * bx * (y - y0),
                0 <= base_b <= 255 * bx * (y - y0),
                sr == base_r + row_sum(d, w, y as int, x0 as int, x as int, 0),
                sg == base_g + row_sum(d, w, y as int, x0 as int, x as int, 1),
                sb == base_b + row_sum(d, w, y as int, x0 as int, x as int, 2),
            decreases x1 - x,
        {
            proof {
                lemma_row_sum_bound(d, w, y as int, x0 as int, x as int, 0);
                lemma_row_sum_bound(d, w, y as int, x0 as int, x as int, 1);
                lemma_row_sum_bound(d, w, y as int, x0 as int, x as int, 2);
            }
            let (r, g, b) = img.pixel(x, y);
            sr = sr + r as u128;
            sg = sg + g as u128;
            sb = sb + b as u128;
            x = x + 1;
        }
        y = y + 1;
    }
    let n: u128 = (x1 - x0) as u128 * (y1 - y0) as u128;
    proof {
        lemma_block_sum_bound(d, w, x0 as int, x1 as int, y0 as int, y1 as int, 0);
        lemma_block_sum_bound(d, w, x0 as int, x1 as int, y0 as int, y1 as int, 1);
        lemma_block_sum_bound(d, w, x0 as int, x1 as int, y0 as int, y1 as int, 2);
        assert(0 < bx * by_) by (nonlinear_arith)
            requires
                0 < bx,
                0 < by_,
        ;
        assert(sr / n <= 255 && sg / n <= 255 && sb / n <= 255) by (nonlinear_arith)
            requires
                0 < n,
                n == bx * by_,
                sr <= 255 * bx * by_,
                sg <= 255 * bx * by_,
                sb <= 255 * bx * by_,
        ;
    }
    ((sr / n) as u8, (sg / n) as u8, (sb / n) as u8)
}

/// Rounding up leaves no more blocks than pixels.
proof fn lemma_ceil_div_le(w: int, s: int)
    requires
        0 <= w,
        1 <= s,
    ensures
        0 <= ceil_div(w, s) <= w,
{
    if ceil_div(w, s) > 0 {
        lemma_block_start(w, s, 0);
    } else {
        vstd::arithmetic::div_mod::lemma_div_pos_is_pos(w, s);
    }
}

/// The Tier-0 base layer: a downsampled, losslessly-stored RGB image plus the
/// original dimensions it can be upscaled to.
#[derive(Debug, Clone, PartialEq, Eq)]
pub struct Tier0Base {
    base_width: u32,
    base_height: u32,
    orig_width: u32,
    orig_height: u32,
    data: Vec<u8>,
}

/// The abstract value of a [`Tier0Base`].
pub struct Tier0View {
    pub base_width: u32,
    pub base_height: u32,
    pub orig_width: u32,
    pub orig_height: u32,
    pub data: Seq<u8>,
}

impl View for Tier0Base {
    type V = Tier0View;

    closed spec fn view(&self) -> Tier0View {
        Tier0View {
            base_width: self.base_width,
            base_height: self.base_height,
            orig_width: self.orig_width,
            orig_height: self.orig_height,
            data: self.data@,
        }
    }
}

/// Serialized form of a Tier-0 base layer.
pub open spec fn enc_tier0(t: Tier0View) -> Seq<u8> {
    le_u32(t.base_width) + le_u32(t.base_height) + le_u32(t.orig_width) + le_u32(t.orig_height)
        + enc_bytes(t.data)
}

/// Parse a Tier-0 base layer at `p`; its pixel data must hold exactly
/// `base_width * base_height` RGB triples.
pub open spec fn sp_tier0(d: Seq<u8>, p: int) -> Result<(Tier0View, int), (AuraError, int)> {
    match sp_u32(d, p) {
        Err(e) => Err(e),
        Ok((bw, p1)) => match sp_u32(d, p1) {
            Err(e) => Err(e),
            Ok((bh, p2)) => match sp_u32(d, p2) {
                Err(e) => Err(e),
                Ok((ow, p3)) => match sp_u32(d, p3) {
                    Err(e) => Err(e),
                    Ok((oh, p4)) => match sp_bytes(d, p4) {
                        Err(e) => Err(e),
                        Ok((data, p5)) => if data.len() == bw * bh * 3 {
                            Ok(
                                (
                                    Tier0View {
                                        base_width: bw,
                                        base_height: bh,
                                        orig_width: ow,
                                        orig_height: oh,
                                        data,
                                    },
                                    p5,
                                ),
                            )
                        } else {
                            Err((AuraError::InvalidLength, p5))
                        },
                    },
                },
            },
        },
    }
}

/// Reading back an encoded Tier-0 base layer gives the same layer.
pub proof fn law_tier0_round_trip(d: Seq<u8>, p: int, t: Tier0View)
    requires
        0 <= p,
        has_at(d, p, enc_tier0(t)),
        t.data.len() <= u32::MAX,
        t.data.len() == t.base_width * t.base_height * 3,
    ensures
        sp_tier0(d, p) == Ok::<(Tier0View, int), (AuraError, int)>((t, p + enc_tier0(t).len())),
{
    let a = le_u32(t.base_width);
    let b = le_u32(t.base_height);
    let c = le_u32(t.orig_width);
    let e = le_u32(t.orig_height);
    lemma_has_at_split(d, p, a + b + c + e, enc_bytes(t.data));
    lemma_has_at_split(d, p, a + b + c, e);
    crate::codec::lemma_has_at_split3(d, p, a, b, c);
    lemma_sp_u32(d, p, t.base_width);
    lemma_sp_u32(d, p + 4, t.base_height);
    lemma_sp_u32(d, p + 8, t.orig_width);
    lemma_sp_u32(d, p + 12, t.orig_height);
    lemma_sp_bytes(d, p + 16, t.data);
}

impl Tier0Base {
    /// Width of the stored base layer.
    pub fn base_width(&self) -> (r: u32)
        ensures
            r == self@.base_width,
    {
        self.base_width
    }

    /// Height of the stored base layer.
    pub fn base_height(&self) -> (r: u32)
        ensures
            r == self@.base_height,
    {
        self.base_height
    }

    /// Original (master) width this layer upscales toward.
    pub fn orig_width(&self) -> (r: u32)
        ensures
            r == self@.orig_width,
    {
        self.orig_width
    }

    /// Original (master) height this layer upscales toward.
    pub fn orig_height(&self) -> (r: u32)
        ensures
            r == self@.orig_height,
    {
        self.orig_height
    }

    /// The base-layer RGB bytes (length `base_width*base_height*3`).
    pub fn data(&self) -> (r: &[u8])
        ensures
            r@ == self@.data,
    {
        self.data.as_slice()
    }

    /// Serialize the Tier-0 base layer into a writer.
    pub fn encode(&self, w: &mut Writer)
        ensures
            final(w)@ == old(w)@ + enc_tier0(self@),
    {
        w.put_u32(self.base_width);
        w.put_u32(self.base_height);
        w.put_u32(self.orig_width);
        w.put_u32(self.orig_height);
        w.put_bytes(self.data.as_slice());
        assert(w@ =~= old(w)@ + enc_tier0(self@));
    }

    /// Deserialize a Tier-0 base layer from a reader.
    pub fn decode(r: &mut Reader) -> (res: Result<Self, AuraError>)
        ensures
            final(r).spec_data() == old(r).spec_data(),
            match sp_tier0(old(r).spec_data(), old(r).spec_pos()) {
                Ok((v, q)) => res matches Ok(t) && t@ == v && final(r).spec_pos() == q,
                Err((e, q)) => res == Err::<Self, AuraError>(e) && final(r).spec_pos() == q,
            },
    {
        let base_width = r.u32()?;
        let base_height = r.u32()?;
        let orig_width = r.u32()?;
        let orig_height = r.u32()?;
        let data = r.bytes()?;
        assert(base_width as u128 * base_height as u128 * 3 <= 0xffff_ffff * 0xffff_ffff * 3)
            by (nonlinear_arith)
            requires
                base_width <= 0xffff_ffff,
                base_height <= 0xffff_ffff,
        ;
        if data.len() as u128 != base_width as u128 * base_height as u128 * 3 {
            return Err(AuraError::InvalidLength);
        }
        Ok(Tier0Base { base_width, base_height, orig_width, orig_height, data })
    }
}

/// Encode the Tier-0 base layer by box-downsampling `scale × scale` blocks
/// (a `scale` of 0 counts as 1).
///
/// The downsample is exact (integer averaging), so the stored base layer
/// round-trips losslessly back to its own resolution.
pub fn encode_tier0(img: &RgbImage, scale: u32) -> (t: Tier0Base)
    requires
        img.wf(),
    ensures
        t@.base_width == ceil_div(img.width as int, effective_scale(scale)),
        t@.base_height == ceil_div(img.height as int, effective_scale(scale)),
        t@.orig_width == img.width,
        t@.orig_height == img.height,
        t@.data.len() == t@.base_width * t@.base_height * 3,
        t@.data.len() <= img.data@.len(),
        forall|i: int|
            0 <= i < t@.data.len() ==> t@.data[i] == tier0_byte(
                img.data@,
                img.width as int,
                img.height as int,
                effective_scale(scale),
                t@.base_width as int,
                i,
            ),
{
    let s: u32 = if scale == 0 {
        1
    } else {
        scale
    };
    let w = img.width;
    let h = img.height;
    proof {
        lemma_ceil_div_le(w as int, s as int);
        lemma_ceil_div_le(h as int, s as int);
    }
    let bw = w / s + if w % s == 0 {
        0
    } else {
        1
    };
    let bh = h / s + if h % s == 0 {
        0
    } else {
        1
    };
    let ghost d = img.data@;
    let ghost si = s as int;
    let mut data: Vec<u8> = Vec::new();
    let mut by: u32 = 0;
    while by < bh
        invariant
            img.wf(),
            d == img.data@,
            w == img.width,
            h == img.height,
            si == s,
            si == effective_scale(scale),
            1 <= s,
            bw == ceil_div(w as int, si),
            bh == ceil_div(h as int, si),
            by <= bh,
            data@.len() == by * bw * 3,
            forall|i: int|
                0 <= i < data@.len() ==> data@[i] == tier0_byte(d, w as int, h as int, si, bw as int, i),
        decreases bh - by,
    {
        proof {
            lemma_block_start(h as int, si, by as int);
        }
        let y0 = by * s;
        let y1 = if h - y0 < s {
            h
        } else {
            y0 + s
        };
        let mut bx: u32 = 0;
        while bx < bw
            invariant
                img.wf(),
                d == img.data@,
                w == img.width,
                h == img.height,
                si == s,
                1 <= s,
                bw == ceil_div(w as int, si),
                by < bh,
                y0 == by * s,
                y1 == span_end(y0 as int, si, h as int),
                y0 < y1 <= h,
                bx <= bw,
                data@.len() == (by * bw + bx) * 3,
                forall|i: int|
                    0 <= i < data@.len() ==> data@[i] == tier0_byte(
                        d,
                        w as int,
                        h as int,
                        si,
                        bw as int,
                        i,
                    ),
            decreases bw - bx,
        {
            proof {
                lemma_block_start(w as int, si, bx as int);
            }
            let x0 = bx * s;
            let x1 = if w - x0 < s {
                w
            } else {
                x0 + s
            };
            let (r, g, b) = block_mean_rgb(img, x0, x1, y0, y1);
            let ghost k = data@.len() as int;
            data.push(r);
            data.push(g);
            data.push(b);
            proof {
                lemma_grid_index(bw as int, bx as int, by as int, 0);
                lemma_grid_index(bw as int, bx as int, by as int, 1);
                lemma_grid_index(bw as int, bx as int, by as int, 2);
                assert(data@[k] == tier0_byte(d, w as int, h as int, si, bw as int, k));
                assert(data@[k + 1] == tier0_byte(d, w as int, h as int, si, bw as int, k + 1));
                assert(data@[k + 2] == tier0_byte(d, w as int, h as int, si, bw as int, k + 2));
                assert((by * bw + bx) * 3 + 3 == (by * bw + (bx + 1)) * 3);
            }
            bx = bx + 1;
        }
        proof {
            assert(by * bw + bw == (by + 1) * bw) by (nonlinear_arith);
        }
        by = by + 1;
    }
    proof {
        assert(bh * bw == bw * bh) by (nonlinear_arith);
        assert(bw * bh * 3 <= w * h * 3) by (nonlinear_arith)
            requires
                0 <= bw <= w,
                0 <= bh <= h,
        ;
    }
    Tier0Base { base_width: bw, base_height: bh, orig_width: w, orig_height: h, data }
}

/// Decode the Tier-0 base layer to an image at base resolution.
pub fn decode_tier0(base: &Tier0Base) -> (img: RgbImage)
    ensures
        img.width == base@.base_width,
        img.height == base@.base_height,
        img.data@ == base@.data,
{
    RgbImage {
        width: base.base_width,
        height: base.base_height,
        data: vstd::slice::slice_to_vec(base.data.as_slice()),
    }
}


/// Source column (or row) in a base layer of size `b` for target coordinate
/// `x` of a target of size `t`: nearest neighbour, clamped to the layer.
pub open spec fn nearest(x: int, b: int, t: int) -> int {
    let q = x * b / (if t == 0 {
        1
    } else {
        t
    });
    if q < b - 1 {
        q
    } else {
        b - 1
    }
}

/// Index in the base layer data of the byte that lands at byte `i` of a
/// `tw × th` upscale of a `bw × bh` base layer.
pub open spec fn upscale_source(bw: int, bh: int, tw: int, th: int, i: int) -> int {
    let p = i / 3;
    pixel_index(bw, nearest(p % tw, bw, tw), nearest(p / tw, bh, th)) + i % 3
}

/// Upscaling to the base layer's own size is the identity: every byte is
/// taken from its own position.
pub proof fn law_upscale_to_base_size_is_identity(bw: int, bh: int, i: int)
    requires
        0 < bw,
        0 < bh,
        0 <= i < bw * bh * 3,
    ensures
        upscale_source(bw, bh, bw, bh, i) == i,
{
    let p = i / 3;
    let x = p % bw;
    let y = p / bw;
    assert(p >= 0);
    assert(0 <= x < bw) by {
        vstd::arithmetic::div_mod::lemma_mod_pos_bound(p, bw);
    }
    assert(x * bw / bw == x) by {
        vstd::arithmetic::div_mod::lemma_div_multiples_vanish(x, bw);
        vstd::arithmetic::mul::lemma_mul_is_commutative(x, bw);
    }
    assert(p < bw * bh) by {
        vstd::arithmetic::div_mod::lemma_div_pos_is_pos(i, 3);
        vstd::arithmetic::div_mod::lemma_fundamental_div_mod(i, 3);
    }
    assert(0 <= y < bh) by {
        vstd::arithmetic::div_mod::lemma_div_pos_is_pos(p, bw);
        vstd::arithmetic::div_mod::lemma_multiply_divide_lt(p, bw, bh);
    }
    assert(y * bh / bh == y) by {
        vstd::arithmetic::div_mod::lemma_div_multiples_vanish(y, bh);
        vstd::arithmetic::mul::lemma_mul_is_commutative(y, bh);
    }
    assert(nearest(x, bw, bw) == x);
    assert(nearest(y, bh, bh) == y);
    vstd::arithmetic::div_mod::lemma_fundamental_div_mod(p, bw);
    vstd::arithmetic::div_mod::lemma_fundamental_div_mod(i, 3);
    assert(pixel_index(bw, x, y) + i % 3 == i) by (nonlinear_arith)
        requires
            p == bw * y + x,
            i == 3 * p + i % 3,
            pixel_index(bw, x, y) == (y * bw + x) * 3,
    ;
}

/// Nearest-neighbour law: in a `tw × th` upscale of a `bw × bh` base layer,
/// channel `c` of output pixel `(x, y)` comes from channel `c` of base pixel
/// `(min(x * bw / tw, bw - 1), min(y * bh / th, bh - 1))`: both axes are
/// scaled the same way, each by its own ratio.
pub proof fn law_upscale_pixel_source(
    bw: int,
    bh: int,
    tw: int,
    th: int,
    x: int,
    y: int,
    c: int,
)
    requires
        0 < bw,
        0 < bh,
        0 <= x < tw,
        0 <= y < th,
        0 <= c < 3,
    ensures
        ({
            let sx = if x * bw / tw < bw - 1 {
                x * bw / tw
            } else {
                bw - 1
            };
            let sy = if y * bh / th < bh - 1 {
                y * bh / th
            } else {
                bh - 1
            };
            upscale_source(bw, bh, tw, th, (y * tw + x) * 3 + c) == (sy * bw + sx) * 3 + c
        }),
{
    lemma_grid_index(tw, x, y, c);
}

/// Nearest-neighbour upscale of the `bw × bh` RGB bytes `src` to `target_w × target_h`.
fn upscale_data(src: &[u8], bw: u32, bh: u32, target_w: u32, target_h: u32) -> (data: Vec<u8>)
    requires
        src@.len() == bw * bh * 3,
        target_w * target_h * 3 <= usize::MAX,
        target_w > 0 && target_h > 0 ==> bw > 0 && bh > 0,
        (target_w - 1) * bw <= u32::MAX,
        (target_h - 1) * bh <= u32::MAX,
    ensures
        data@.len() == target_w * target_h * 3,
        forall|i: int|
            0 <= i < data@.len() ==> data@[i] == src@[upscale_source(
                bw as int,
                bh as int,
                target_w as int,
                target_h as int,
                i,
            )],
{
    let ghost srcv = src@;
    let tw1 = if target_w == 0 {
        1
    } else {
        target_w
    };
    let th1 = if target_h == 0 {
        1
    } else {
        target_h
    };
    let mut data: Vec<u8> = Vec::new();
    let mut y: u32 = 0;
    while y < target_h
        invariant
            srcv == src@,
            srcv.len() == bw * bh * 3,
            target_w > 0 && target_h > 0 ==> bw > 0 && bh > 0,
            (target_w - 1) * bw <= u32::MAX,
            (target_h - 1) * bh <= u32::MAX,
            tw1 == (if target_w == 0 {
                1
            } else {
                target_w
            }),
            th1 == (if target_h == 0 {
                1
            } else {
                target_h
            }),
            y <= target_h,
            data@.len() == y * target_w * 3,
            forall|i: int|
                0 <= i < data@.len() ==> data@[i] == srcv[upscale_source(
                    bw as int,
                    bh as int,
                    target_w as int,
                    target_h as int,
                    i,
                )],
        decreases target_h - y,
    {
        let mut x: u32 = 0;
        while x < target_w
            invariant
                srcv == src@,
                srcv.len() == bw * bh * 3,
                target_w > 0 ==> bw > 0 && bh > 0,
                (target_w - 1) * bw <= u32::MAX,
                (target_h - 1) * bh <= u32::MAX,
                target_w > 0 ==> tw1 == target_w,
                th1 == target_h,
                y < target_h,
                x <= target_w,
                data@.len() == (y * target_w + x) * 3,
                forall|i: int|
                    0 <= i < data@.len() ==> data@[i] == srcv[upscale_source(
                        bw as int,
                        bh as int,
                        target_w as int,
                        target_h as int,
                        i,
                    )],
            decreases target_w - x,
        {
            proof {
                assert(x * bw <= (target_w - 1) * bw) by (nonlinear_arith)
                    requires
                        x <= target_w - 1,
                ;
                assert(y * bh <= (target_h - 1) * bh) by (nonlinear_arith)
                    requires
                        y <= target_h - 1,
                ;
            }
            let qy = y * bh / th1;
            let sy = if qy < bh - 1 {
                qy
            } else {
                bh - 1
            };
            let qx = x * bw / tw1;
            let sx = if qx < bw - 1 {
                qx
            } else {
                bw - 1
            };
            proof {
                lemma_pixel_in_bounds(bw as int, bh as int, sx as int, sy as int);
            }
            let _len = src.len();
            let row = sy as usize * bw as usize;
            let i = (row + sx as usize) * 3;
            let ghost k = data@.len() as int;
            data.push(src[i]);
            data.push(src[i + 1]);
            data.push(src[i + 2]);
            proof {
                lemma_grid_index(target_w as int, x as int, y as int, 0);
                lemma_grid_index(target_w as int, x as int, y as int, 1);
                lemma_grid_index(target_w as int, x as int, y as int, 2);
                assert(data@[k] == srcv[upscale_source(bw as int, bh as int, target_w as int, target_h as int, k)]);
                assert(data@[k + 1] == srcv[upscale_source(bw as int, bh as int, target_w as int, target_h as int, k + 1)]);
                assert(data@[k + 2] == srcv[upscale_source(bw as int, bh as int, target_w as int, target_h as int, k + 2)]);
                assert((y * target_w + x) * 3 + 3 == (y * target_w + (x + 1)) * 3);
            }
            x = x + 1;
        }
        proof {
            assert(y * target_w + target_w == (y + 1) * target_w) by (nonlinear_arith);
        }
        y = y + 1;
    }
    proof {
        assert(target_h * target_w == target_w * target_h) by (nonlinear_arith);
    }
    data
}



/// Upscale a Tier-0 base layer to a target resolution with nearest-neighbour.
pub fn upscale_tier0(base: &Tier0Base, target_w: u32, target_h: u32) -> (out: RgbImage)
    requires
        base@.data.len() == base@.base_width * base@.base_height * 3,
        target_w * target_h * 3 <= usize::MAX,
        target_w > 0 && target_h > 0 ==> base@.base_width > 0 && base@.base_height > 0,
        (target_w - 1) * base@.base_width <= u32::MAX,
        (target_h - 1) * base@.base_height <= u32::MAX,
    ensures
        out.width == target_w,
        out.height == target_h,
        out.wf(),
        forall|i: int|
            0 <= i < out.data@.len() ==> out.data@[i] == base@.data[upscale_source(
                base@.base_width as int,
                base@.base_height as int,
                target_w as int,
                target_h as int,
                i,
            )],
{
    let data = upscale_data(base.data.as_slice(), base.base_width, base.base_height, target_w, target_h);
    RgbImage { width: target_w, height: target_h, data }
}

/// Nearest-neighbour upscale of an RGB image.
pub fn upscale_nearest(src: &RgbImage, target_w: u32, target_h: u32) -> (out: RgbImage)
    requires
        src.wf(),
        target_w * target_h * 3 <= usize::MAX,
        target_w > 0 && target_h > 0 ==> src.width > 0 && src.height > 0,
        (target_w - 1) * src.width <= u32::MAX,
        (target_h - 1) * src.height <= u32::MAX,
    ensures
        out.width == target_w,
        out.height == target_h,
        out.wf(),
        forall|i: int|
            0 <= i < out.data@.len() ==> out.data@[i] == src.data@[upscale_source(
                src.width as int,
                src.height as int,
                target_w as int,
                target_h as int,
                i,
            )],
{
    let data = upscale_data(src.data.as_slice(), src.width, src.height, target_w, target_h);
    RgbImage { width: target_w, height: target_h, data }
}

// ---------------------------------------------------------------------------
// Error measure
// ---------------------------------------------------------------------------

/// Sum of the squared differences of the first `n` bytes of `a` and `b`.
pub open spec fn squared_error(a: Seq<u8>, b: Seq<u8>, n: int) -> int
    decreases n,
{
    if n <= 0 {
        0
    } else {
        squared_error(a, b, n - 1) + (a[n - 1] - b[n - 1]) * (a[n - 1] - b[n - 1])
    }
}

proof fn lemma_squared_error_bound(a: Seq<u8>, b: Seq<u8>, n: int)
    requires
        0 <= n,
    ensures
        0 <= squared_error(a, b, n) <= 65025 * n,
    decreases n,
{
    if n > 0 {
        lemma_squared_error_bound(a, b, n - 1);
        let x = a[n - 1] as int;
        let y = b[n - 1] as int;
        assert(0 <= (x - y) * (x - y) <= 65025) by (nonlinear_arith)
            requires
                0 <= x <= 255,
                0 <= y <= 255,
        ;
    }
}

/// Sum of the squared byte differences of two equal-sized images: the
/// integer core of their peak signal-to-noise ratio (the PSNR in dB is
/// `10 · log10(255² · len / sum)`, infinite for a zero sum).
pub fn squared_error_sum(a: &RgbImage, b: &RgbImage) -> (r: Result<u128, AuraError>)
    ensures
        a.width != b.width || a.height != b.height || a.data@.len() != b.data@.len() ==> (r matches Err(
            AuraError::Unsupported(s),
        ) && s@ == "psnr requires equal-sized images"@),
        a.width == b.width && a.height == b.height && a.data@.len() == b.data@.len() ==> r == Ok::<
            u128,
            AuraError,
        >(squared_error(a.data@, b.data@, a.data@.len() as int) as u128),
{
    if a.width != b.width || a.height != b.height || a.data.len() != b.data.len() {
        return Err(AuraError::Unsupported("psnr requires equal-sized images".to_owned()));
    }
    let n = a.data.len();
    let mut acc: u128 = 0;
    let mut i: usize = 0;
    while i < n
        invariant
            n == a.data@.len(),
            n == b.data@.len(),
            i <= n,
            acc == squared_error(a.data@, b.data@, i as int),
        decreases n - i,
    {
        proof {
            lemma_squared_error_bound(a.data@, b.data@, i as int + 1);
            assert(65025 * (i as int + 1) <= u128::MAX);
        }
        let x = a.data[i];
        let y = b.data[i];
        let d: u128 = if x >= y {
            (x - y) as u128
        } else {
            (y - x) as u128
        };
        proof {
            assert(d * d == (x - y) * (x - y)) by (nonlinear_arith)
                requires
                    d == x - y || d == y - x,
            ;
        }
        acc = acc + d * d;
        i = i + 1;
    }
    Ok(acc)
}

// ---------------------------------------------------------------------------
// Tier 1
// ---------------------------------------------------------------------------

/// Container for the Tier-1 neural reconstruction payload (e.g. super-resolution
/// weights embedded in the file).
#[derive(Debug, Clone, PartialEq, Eq)]
pub struct NeuralPayloadRecord {
    /// Name of the embedded model (e.g. `"real-esrgan-x4"`).
    pub model_name: String,
    /// Raw model weight bytes.
    pub weights: Vec<u8>,
}

/// The abstract value of a [`NeuralPayloadRecord`].
pub struct PayloadView {
    pub model_name: Seq<char>,
    pub weights: Seq<u8>,
}

impl View for NeuralPayloadRecord {
    type V = PayloadView;

    open spec fn view(&self) -> PayloadView {
        PayloadView { model_name: self.model_name@, weights: self.weights@ }
    }
}

/// Serialized form of a Tier-1 payload.
pub open spec fn enc_payload(p: PayloadView) -> Seq<u8> {
    enc_str(p.model_name) + enc_bytes(p.weights)
}

/// Parse a Tier-1 payload at `p`.
pub open spec fn sp_payload(d: Seq<u8>, p: int) -> Result<(PayloadView, int), (AuraError, int)> {
    match sp_str(d, p) {
        Err(e) => Err(e),
        Ok((name, p1)) => match sp_bytes(d, p1) {
            Err(e) => Err(e),
            Ok((weights, p2)) => Ok((PayloadView { model_name: name, weights }, p2)),
        },
    }
}

/// Reading back an encoded Tier-1 payload gives the same payload.
pub proof fn law_payload_round_trip(d: Seq<u8>, p: int, v: PayloadView)
    requires
        0 <= p,
        has_at(d, p, enc_payload(v)),
        encode_utf8(v.model_name).len() <= u32::MAX,
        v.weights.len() <= u32::MAX,
    ensures
        sp_payload(d, p) == Ok::<(PayloadView, int), (AuraError, int)>((v, p + enc_payload(v).len())),
{
    let a = enc_str(v.model_name);
    lemma_has_at_split(d, p, a, enc_bytes(v.weights));
    lemma_sp_str(d, p, v.model_name);
    lemma_sp_bytes(d, p + a.len(), v.weights);
}

impl NeuralPayloadRecord {
    /// Serialize into a writer.
    pub fn encode(&self, w: &mut Writer)
        ensures
            final(w)@ == old(w)@ + enc_payload(self@),
    {
        w.put_str(self.model_name.as_str());
        w.put_bytes(self.weights.as_slice());
        assert(w@ =~= old(w)@ + enc_payload(self@));
    }

    /// Deserialize from a reader.
    pub fn decode(r: &mut Reader) -> (res: Result<Self, AuraError>)
        ensures
            final(r).spec_data() == old(r).spec_data(),
            match sp_payload(old(r).spec_data(), old(r).spec_pos()) {
                Ok((v, q)) => res matches Ok(x) && x@ == v && final(r).spec_pos() == q,
                Err((e, q)) => res == Err::<Self, AuraError>(e) && final(r).spec_pos() == q,
            },
    {
        let model_name = r.str()?;
        let weights = r.bytes()?;
        Ok(NeuralPayloadRecord { model_name, weights })
    }
}

/// Reconstruct the master-resolution image from a Tier-0 base layer and a
/// Tier-1 payload. This build has no neural backend and always returns
/// [`AuraError::Unsupported`].
pub fn reconstruct_tier1(_base: &Tier0Base, _payload: &NeuralPayloadRecord) -> (r: Result<
    RgbImage,
    AuraError,
>)
    ensures
        r matches Err(AuraError::Unsupported(s)) && s@
            == "Tier-1 neural reconstruction requires the `tpt-aura-onnx` (onnx) feature with model weights"@,
{
    Err(
        AuraError::Unsupported(
            "Tier-1 neural reconstruction requires the `tpt-aura-onnx` (onnx) feature with model weights".to_owned(),
        ),
    )
}

} // verus!
