//! Little-endian binary read/write helpers and a CRC-32 implementation.
//!
//! The container is a flat byte stream. [`Writer`] accumulates bytes;
//! [`Reader`] consumes them with bounds checking that yields
//! [`AuraError::UnexpectedEof`].
//!
//! Next to the executable code this module holds the byte-level model used by
//! every other module: the encodings `le_u16`/`le_u32`/`le_u64`/`enc_bytes`/
//! `enc_str`, the decoders `sp_u8`/.../`sp_str` that say what a read at a
//! position of a byte sequence yields (a value and the next position, or an
//! error and the position the reader is left at), and the lemmas that tie the
//! two together.
use crate::error::AuraError;
use vstd::prelude::*;
use vstd::utf8::*;

verus! {

broadcast use vstd::utf8::encode_utf8_decode_utf8, vstd::utf8::encode_utf8_valid_utf8;

// ---------------------------------------------------------------------------
// Encodings
// ---------------------------------------------------------------------------

/// Two little-endian bytes of `v`.
pub open spec fn le_u16(v: u16) -> Seq<u8> {
    seq![(v & 0xff) as u8, ((v >> 8u16) & 0xff) as u8]
}

/// Four little-endian bytes of `v`.
pub open spec fn le_u32(v: u32) -> Seq<u8> {
    seq![
        (v & 0xff) as u8,
        ((v >> 8u32) & 0xff) as u8,
        ((v >> 16u32) & 0xff) as u8,
        ((v >> 24u32) & 0xff) as u8,
    ]
}

/// Eight little-endian bytes of `v`.
pub open spec fn le_u64(v: u64) -> Seq<u8> {
    seq![
        (v & 0xff) as u8,
        ((v >> 8u64) & 0xff) as u8,
        ((v >> 16u64) & 0xff) as u8,
        ((v >> 24u64) & 0xff) as u8,
        ((v >> 32u64) & 0xff) as u8,
        ((v >> 40u64) & 0xff) as u8,
        ((v >> 48u64) & 0xff) as u8,
        ((v >> 56u64) & 0xff) as u8,
    ]
}

/// A `u32` length prefix (truncated to 32 bits) followed by the bytes.
pub open spec fn enc_bytes(b: Seq<u8>) -> Seq<u8> {
    le_u32(b.len() as u32) + b
}

/// A length-prefixed UTF-8 string.
pub open spec fn enc_str(s: Seq<char>) -> Seq<u8> {
    enc_bytes(encode_utf8(s))
}

/// The `u16` whose little-endian bytes start at `p`.
pub open spec fn u16_at(d: Seq<u8>, p: int) -> u16 {
    (d[p] as u16) | ((d[p + 1] as u16) << 8u16)
}

/// The `u32` whose little-endian bytes start at `p`.
pub open spec fn u32_at(d: Seq<u8>, p: int) -> u32 {
    (d[p] as u32) | ((d[p + 1] as u32) << 8u32) | ((d[p + 2] as u32) << 16u32) | ((d[p
        + 3] as u32) << 24u32)
}

/// The `u64` whose little-endian bytes start at `p`.
pub open spec fn u64_at(d: Seq<u8>, p: int) -> u64 {
    (d[p] as u64) | ((d[p + 1] as u64) << 8u64) | ((d[p + 2] as u64) << 16u64) | ((d[p
        + 3] as u64) << 24u64) | ((d[p + 4] as u64) << 32u64) | ((d[p + 5] as u64) << 40u64)
        | ((d[p + 6] as u64) << 48u64) | ((d[p + 7] as u64) << 56u64)
}

// ---------------------------------------------------------------------------
// Decoders: what a read at position `p` of `d` yields.
// `Ok((value, next))` or `Err((error, position the reader is left at))`.
// ---------------------------------------------------------------------------

/// `n` raw bytes read at `p`.
pub open spec fn sp_take(d: Seq<u8>, p: int, n: int) -> Result<(Seq<u8>, int), (AuraError, int)> {
    if p + n <= d.len() {
        Ok((d.subrange(p, p + n), p + n))
    } else {
        Err((AuraError::UnexpectedEof, p))
    }
}

/// A byte read at `p`.
pub open spec fn sp_u8(d: Seq<u8>, p: int) -> Result<(u8, int), (AuraError, int)> {
    if p + 1 <= d.len() {
        Ok((d[p], p + 1))
    } else {
        Err((AuraError::UnexpectedEof, p))
    }
}

/// A little-endian `u16` read at `p`.
pub open spec fn sp_u16(d: Seq<u8>, p: int) -> Result<(u16, int), (AuraError, int)> {
    if p + 2 <= d.len() {
        Ok((u16_at(d, p), p + 2))
    } else {
        Err((AuraError::UnexpectedEof, p))
    }
}

/// A little-endian `u32` read at `p`.
pub open spec fn sp_u32(d: Seq<u8>, p: int) -> Result<(u32, int), (AuraError, int)> {
    if p + 4 <= d.len() {
        Ok((u32_at(d, p), p + 4))
    } else {
        Err((AuraError::UnexpectedEof, p))
    }
}

/// A little-endian `u64` read at `p`.
pub open spec fn sp_u64(d: Seq<u8>, p: int) -> Result<(u64, int), (AuraError, int)> {
    if p + 8 <= d.len() {
        Ok((u64_at(d, p), p + 8))
    } else {
        Err((AuraError::UnexpectedEof, p))
    }
}

/// A `u32` length followed by that many bytes.
pub open spec fn sp_bytes(d: Seq<u8>, p: int) -> Result<(Seq<u8>, int), (AuraError, int)> {
    match sp_u32(d, p) {
        Err(e) => Err(e),
        Ok((n, q)) => sp_take(d, q, n as int),
    }
}

/// A length-prefixed byte string that must be valid UTF-8.
pub open spec fn sp_str(d: Seq<u8>, p: int) -> Result<(Seq<char>, int), (AuraError, int)> {
    match sp_bytes(d, p) {
        Err(e) => Err(e),
        Ok((b, q)) => if valid_utf8(b) {
            Ok((decode_utf8(b), q))
        } else {
            Err((AuraError::Utf8, q))
        },
    }
}

/// `e` occurs in `d` starting at position `p`.
pub open spec fn has_at(d: Seq<u8>, p: int, e: Seq<u8>) -> bool {
    &&& 0 <= p
    &&& p + e.len() <= d.len()
    &&& d.subrange(p, p + e.len()) == e
}

// ---------------------------------------------------------------------------
// Lemmas
// ---------------------------------------------------------------------------

/// What occurs at `p` as `a + b` has `a` at `p` and `b` right after.
pub proof fn lemma_has_at_split(d: Seq<u8>, p: int, a: Seq<u8>, b: Seq<u8>)
    requires
        has_at(d, p, a + b),
    ensures
        has_at(d, p, a),
        has_at(d, p + a.len(), b),
{
    assert(d.subrange(p, p + a.len()) =~= (a + b).subrange(0, a.len() as int));
    assert((a + b).subrange(0, a.len() as int) =~= a);
    assert(d.subrange(p + a.len(), p + a.len() + b.len()) =~= (a + b).subrange(
        a.len() as int,
        (a + b).len() as int,
    ));
    assert((a + b).subrange(a.len() as int, (a + b).len() as int) =~= b);
}

/// Three parts occurring one after another at `p`.
pub proof fn lemma_has_at_split3(d: Seq<u8>, p: int, a: Seq<u8>, b: Seq<u8>, c: Seq<u8>)
    requires
        has_at(d, p, a + b + c),
    ensures
        has_at(d, p, a),
        has_at(d, p + a.len(), b),
        has_at(d, p + a.len() + b.len(), c),
{
    lemma_has_at_split(d, p, a + b, c);
    lemma_has_at_split(d, p, a, b);
}

/// A sequence occurs in itself at position 0.
pub proof fn lemma_has_at_whole(d: Seq<u8>)
    ensures
        has_at(d, 0, d),
{
    assert(d.subrange(0, d.len() as int) =~= d);
}

/// Reassembling the little-endian bytes of a `u16` gives it back.
pub proof fn lemma_u16_bytes(v: u16)
    ensures
        ((v & 0xff) as u8 as u16) | ((((v >> 8u16) & 0xff) as u8 as u16) << 8u16) == v,
{
    assert(((v & 0xff) as u8 as u16) | ((((v >> 8u16) & 0xff) as u8 as u16) << 8u16) == v)
        by (bit_vector);
}

/// Reassembling the little-endian bytes of a `u32` gives it back.
pub proof fn lemma_u32_bytes(v: u32)
    ensures
        ((v & 0xff) as u8 as u32) | ((((v >> 8u32) & 0xff) as u8 as u32) << 8u32) | ((((v
            >> 16u32) & 0xff) as u8 as u32) << 16u32) | ((((v >> 24u32) & 0xff) as u8 as u32)
            << 24u32) == v,
{
    assert(((v & 0xff) as u8 as u32) | ((((v >> 8u32) & 0xff) as u8 as u32) << 8u32) | ((((v
        >> 16u32) & 0xff) as u8 as u32) << 16u32) | ((((v >> 24u32) & 0xff) as u8 as u32)
        << 24u32) == v) by (bit_vector);
}

/// Reassembling the little-endian bytes of a `u64` gives it back.
pub proof fn lemma_u64_bytes(v: u64)
    ensures
        ((v & 0xff) as u8 as u64) | ((((v >> 8u64) & 0xff) as u8 as u64) << 8u64) | ((((v
            >> 16u64) & 0xff) as u8 as u64) << 16u64) | ((((v >> 24u64) & 0xff) as u8 as u64)
            << 24u64) | ((((v >> 32u64) & 0xff) as u8 as u64) << 32u64) | ((((v >> 40u64)
            & 0xff) as u8 as u64) << 40u64) | ((((v >> 48u64) & 0xff) as u8 as u64) << 48u64)
            | ((((v >> 56u64) & 0xff) as u8 as u64) << 56u64) == v,
{
    assert(((v & 0xff) as u8 as u64) | ((((v >> 8u64) & 0xff) as u8 as u64) << 8u64) | ((((v
        >> 16u64) & 0xff) as u8 as u64) << 16u64) | ((((v >> 24u64) & 0xff) as u8 as u64)
        << 24u64) | ((((v >> 32u64) & 0xff) as u8 as u64) << 32u64) | ((((v >> 40u64) & 0xff)
        as u8 as u64) << 40u64) | ((((v >> 48u64) & 0xff) as u8 as u64) << 48u64) | ((((v
        >> 56u64) & 0xff) as u8 as u64) << 56u64) == v) by (bit_vector);
}

/// Reading a byte where it was written gives it back.
pub proof fn lemma_sp_u8(d: Seq<u8>, p: int, v: u8)
    requires
        has_at(d, p, seq![v]),
    ensures
        sp_u8(d, p) == Ok::<(u8, int), (AuraError, int)>((v, p + 1)),
{
    assert(d.subrange(p, p + 1)[0] == d[p]);
}

/// Reading a `u16` where it was written gives it back.
pub proof fn lemma_sp_u16(d: Seq<u8>, p: int, v: u16)
    requires
        has_at(d, p, le_u16(v)),
    ensures
        sp_u16(d, p) == Ok::<(u16, int), (AuraError, int)>((v, p + 2)),
{
    assert(d[p] == d.subrange(p, p + 2)[0]);
    assert(d[p + 1] == d.subrange(p, p + 2)[1]);
    lemma_u16_bytes(v);
}

/// Reading a `u32` where it was written gives it back.
pub proof fn lemma_sp_u32(d: Seq<u8>, p: int, v: u32)
    requires
        has_at(d, p, le_u32(v)),
    ensures
        sp_u32(d, p) == Ok::<(u32, int), (AuraError, int)>((v, p + 4)),
{
    assert(d[p] == d.subrange(p, p + 4)[0]);
    assert(d[p + 1] == d.subrange(p, p + 4)[1]);
    assert(d[p + 2] == d.subrange(p, p + 4)[2]);
    assert(d[p + 3] == d.subrange(p, p + 4)[3]);
    lemma_u32_bytes(v);
}

/// Reading a `u64` where it was written gives it back.
pub proof fn lemma_sp_u64(d: Seq<u8>, p: int, v: u64)
    requires
        has_at(d, p, le_u64(v)),
    ensures
        sp_u64(d, p) == Ok::<(u64, int), (AuraError, int)>((v, p + 8)),
{
    let s = d.subrange(p, p + 8);
    assert(d[p] == s[0]);
    assert(d[p + 1] == s[1]);
    assert(d[p + 2] == s[2]);
    assert(d[p + 3] == s[3]);
    assert(d[p + 4] == s[4]);
    assert(d[p + 5] == s[5]);
    assert(d[p + 6] == s[6]);
    assert(d[p + 7] == s[7]);
    lemma_u64_bytes(v);
}

/// Taking as many bytes as were written gives them back.
pub proof fn lemma_sp_take(d: Seq<u8>, p: int, b: Seq<u8>)
    requires
        has_at(d, p, b),
    ensures
        sp_take(d, p, b.len() as int) == Ok::<(Seq<u8>, int), (AuraError, int)>((b, p + b.len())),
{
}

/// Reading length-prefixed bytes where they were written gives them back.
pub proof fn lemma_sp_bytes(d: Seq<u8>, p: int, b: Seq<u8>)
    requires
        has_at(d, p, enc_bytes(b)),
        b.len() <= u32::MAX,
    ensures
        sp_bytes(d, p) == Ok::<(Seq<u8>, int), (AuraError, int)>((b, p + 4 + b.len())),
{
    lemma_has_at_split(d, p, le_u32(b.len() as u32), b);
    lemma_sp_u32(d, p, b.len() as u32);
}

/// Reading a length-prefixed string where it was written gives it back.
pub proof fn lemma_sp_str(d: Seq<u8>, p: int, s: Seq<char>)
    requires
        has_at(d, p, enc_str(s)),
        encode_utf8(s).len() <= u32::MAX,
    ensures
        sp_str(d, p) == Ok::<(Seq<char>, int), (AuraError, int)>((s, p + enc_str(s).len())),
{
    lemma_sp_bytes(d, p, encode_utf8(s));
}

// ---------------------------------------------------------------------------
// CRC-32 (IEEE 802.3, reflected polynomial 0xEDB8_8320)
// ---------------------------------------------------------------------------

/// One shift step of the reflected CRC register.
pub open spec fn crc_step(c: u32) -> u32 {
    if c & 1 != 0 {
        (c >> 1u32) ^ 0xEDB8_8320u32
    } else {
        c >> 1u32
    }
}

/// `k` shift steps.
pub open spec fn crc_steps(c: u32, k: nat) -> u32
    decreases k,
{
    if k == 0 {
        c
    } else {
        crc_step(crc_steps(c, (k - 1) as nat))
    }
}

/// The register after absorbing the bytes of `s`, starting from `init`.
pub open spec fn crc_register(init: u32, s: Seq<u8>) -> u32
    decreases s.len(),
{
    if s.len() == 0 {
        init
    } else {
        crc_steps(crc_register(init, s.drop_last()) ^ (s.last() as u32), 8)
    }
}

/// CRC-32 of `s`.
pub open spec fn spec_crc32(s: Seq<u8>) -> u32 {
    crc_register(0xFFFF_FFFFu32, s) ^ 0xFFFF_FFFFu32
}

/// IEEE 802.3 CRC-32 (polynomial `0xEDB8_8320`, reflected).
pub fn crc32(data: &[u8]) -> (r: u32)
    ensures
        r == spec_crc32(data@),
{
    let mut crc: u32 = 0xFFFF_FFFF;
    let mut i: usize = 0;
    while i < data.len()
        invariant
            i <= data@.len(),
            crc == crc_register(0xFFFF_FFFFu32, data@.subrange(0, i as int)),
        decreases data@.len() - i,
    {
        let byte = data[i];
        let ghost before = crc;
        crc = crc ^ (byte as u32);
        let ghost start = crc;
        let mut k: usize = 0;
        while k < 8
            invariant
                k <= 8,
                crc == crc_steps(start, k as nat),
            decreases 8 - k,
        {
            if crc & 1 != 0 {
                crc = (crc >> 1) ^ 0xEDB8_8320;
            } else {
                crc = crc >> 1;
            }
            k = k + 1;
        }
        proof {
            let s = data@.subrange(0, i as int + 1);
            assert(s.drop_last() =~= data@.subrange(0, i as int));
            assert(s.last() == byte);
        }
        i = i + 1;
    }
    proof {
        assert(data@.subrange(0, data@.len() as int) =~= data@);
    }
    crc ^ 0xFFFF_FFFF
}

// ---------------------------------------------------------------------------
// Writer
// ---------------------------------------------------------------------------

/// Accumulates little-endian primitives into a byte buffer.
#[derive(Debug, Clone)]
pub struct Writer {
    buf: Vec<u8>,
}

impl View for Writer {
    type V = Seq<u8>;

    closed spec fn view(&self) -> Seq<u8> {
        self.buf@
    }
}

impl Writer {
    /// Create an empty writer.
    pub fn new() -> (w: Self)
        ensures
            w@ == Seq::<u8>::empty(),
    {
        Writer { buf: Vec::new() }
    }

    /// Number of bytes accumulated so far.
    pub fn len(&self) -> (n: usize)
        ensures
            n == self@.len(),
    {
        self.buf.len()
    }

    /// Whether no bytes have been written.
    pub fn is_empty(&self) -> (b: bool)
        ensures
            b == (self@.len() == 0),
    {
        self.buf.len() == 0
    }

    /// Consume the writer and return its bytes.
    pub fn into_inner(self) -> (v: Vec<u8>)
        ensures
            v@ == self@,
    {
        self.buf
    }

    /// One byte.
    pub fn put_u8(&mut self, v: u8)
        ensures
            final(self)@ == old(self)@ + seq![v],
    {
        self.buf.push(v);
    }

    /// A little-endian `u16`.
    pub fn put_u16(&mut self, v: u16)
        ensures
            final(self)@ == old(self)@ + le_u16(v),
    {
        self.buf.push((v & 0xff) as u8);
        self.buf.push(((v >> 8) & 0xff) as u8);
        assert(self.buf@ =~= old(self)@ + le_u16(v));
    }

    /// A little-endian `u32`.
    pub fn put_u32(&mut self, v: u32)
        ensures
            final(self)@ == old(self)@ + le_u32(v),
    {
        self.buf.push((v & 0xff) as u8);
        self.buf.push(((v >> 8) & 0xff) as u8);
        self.buf.push(((v >> 16) & 0xff) as u8);
        self.buf.push(((v >> 24) & 0xff) as u8);
        assert(self.buf@ =~= old(self)@ + le_u32(v));
    }

    /// A little-endian `u64`.
    pub fn put_u64(&mut self, v: u64)
        ensures
            final(self)@ == old(self)@ + le_u64(v),
    {
        self.buf.push((v & 0xff) as u8);
        self.buf.push(((v >> 8) & 0xff) as u8);
        self.buf.push(((v >> 16) & 0xff) as u8);
        self.buf.push(((v >> 24) & 0xff) as u8);
        self.buf.push(((v >> 32) & 0xff) as u8);
        self.buf.push(((v >> 40) & 0xff) as u8);
        self.buf.push(((v >> 48) & 0xff) as u8);
        self.buf.push(((v >> 56) & 0xff) as u8);
        assert(self.buf@ =~= old(self)@ + le_u64(v));
    }

    /// Append a raw, unprefixed byte slice.
    pub fn put_raw(&mut self, b: &[u8])
        ensures
            final(self)@ == old(self)@ + b@,
    {
        let mut i: usize = 0;
        while i < b.len()
            invariant
                i <= b@.len(),
                self.buf@ == old(self)@ + b@.subrange(0, i as int),
            decreases b@.len() - i,
        {
            self.buf.push(b[i]);
            i = i + 1;
            assert(self.buf@ =~= old(self)@ + b@.subrange(0, i as int));
        }
        assert(b@.subrange(0, b@.len() as int) =~= b@);
    }

    /// Length-prefixed (`u32`) raw bytes.
    pub fn put_bytes(&mut self, b: &[u8])
        ensures
            final(self)@ == old(self)@ + enc_bytes(b@),
    {
        self.put_u32(b.len() as u32);
        self.put_raw(b);
        assert(self@ =~= old(self)@ + enc_bytes(b@));
    }

    /// Length-prefixed UTF-8 string.
    pub fn put_str(&mut self, s: &str)
        ensures
            final(self)@ == old(self)@ + enc_str(s@),
    {
        self.put_bytes(s.as_bytes());
    }
}

// ---------------------------------------------------------------------------
// Reader
// ---------------------------------------------------------------------------

/// Consumes a byte slice with bounds-checked little-endian reads.
pub struct Reader<'a> {
    data: &'a [u8],
    pos: usize,
}

impl<'a> Reader<'a> {
    #[verifier::type_invariant]
    spec fn inv(&self) -> bool {
        self.pos <= self.data@.len()
    }

    /// The bytes being read.
    pub closed spec fn spec_data(&self) -> Seq<u8> {
        self.data@
    }

    /// The current read position.
    pub closed spec fn spec_pos(&self) -> int {
        self.pos as int
    }

    /// Wrap a slice for reading from the start.
    pub fn new(data: &'a [u8]) -> (r: Self)
        ensures
            r.spec_data() == data@,
            r.spec_pos() == 0,
    {
        Reader { data, pos: 0 }
    }

    /// Bytes remaining unread.
    pub fn remaining(&self) -> (n: usize)
        ensures
            n == self.spec_data().len() - self.spec_pos(),
    {
        proof {
            use_type_invariant(self);
        }
        self.data.len() - self.pos
    }

    fn take(&mut self, n: usize) -> (r: Result<&'a [u8], AuraError>)
        ensures
            final(self).spec_data() == old(self).spec_data(),
            match sp_take(old(self).spec_data(), old(self).spec_pos(), n as int) {
                Ok((b, q)) => r matches Ok(s) && s@ == b && final(self).spec_pos() == q,
                Err((e, q)) => r == Err::<&[u8], AuraError>(e) && final(self).spec_pos() == q,
            },
    {
        proof {
            use_type_invariant(&*self);
        }
        if n > self.data.len() - self.pos {
            return Err(AuraError::UnexpectedEof);
        }
        let s = vstd::slice::slice_subrange(self.data, self.pos, self.pos + n);
        self.pos = self.pos + n;
        Ok(s)
    }

    /// Read one byte.
    pub fn u8(&mut self) -> (r: Result<u8, AuraError>)
        ensures
            final(self).spec_data() == old(self).spec_data(),
            match sp_u8(old(self).spec_data(), old(self).spec_pos()) {
                Ok((v, q)) => r == Ok::<u8, AuraError>(v) && final(self).spec_pos() == q,
                Err((e, q)) => r == Err::<u8, AuraError>(e) && final(self).spec_pos() == q,
            },
    {
        let b = self.take(1)?;
        Ok(b[0])
    }

    /// Read a little-endian `u16`.
    pub fn u16(&mut self) -> (r: Result<u16, AuraError>)
        ensures
            final(self).spec_data() == old(self).spec_data(),
            match sp_u16(old(self).spec_data(), old(self).spec_pos()) {
                Ok((v, q)) => r == Ok::<u16, AuraError>(v) && final(self).spec_pos() == q,
                Err((e, q)) => r == Err::<u16, AuraError>(e) && final(self).spec_pos() == q,
            },
    {
        let b = self.take(2)?;
        Ok((b[0] as u16) | ((b[1] as u16) << 8))
    }

    /// Read a little-endian `u32`.
    pub fn u32(&mut self) -> (r: Result<u32, AuraError>)
        ensures
            final(self).spec_data() == old(self).spec_data(),
            match sp_u32(old(self).spec_data(), old(self).spec_pos()) {
                Ok((v, q)) => r == Ok::<u32, AuraError>(v) && final(self).spec_pos() == q,
                Err((e, q)) => r == Err::<u32, AuraError>(e) && final(self).spec_pos() == q,
            },
    {
        let b = self.take(4)?;
        Ok((b[0] as u32) | ((b[1] as u32) << 8) | ((b[2] as u32) << 16) | ((b[3] as u32) << 24))
    }

    /// Read a little-endian `u64`.
    pub fn u64(&mut self) -> (r: Result<u64, AuraError>)
        ensures
            final(self).spec_data() == old(self).spec_data(),
            match sp_u64(old(self).spec_data(), old(self).spec_pos()) {
                Ok((v, q)) => r == Ok::<u64, AuraError>(v) && final(self).spec_pos() == q,
                Err((e, q)) => r == Err::<u64, AuraError>(e) && final(self).spec_pos() == q,
            },
    {
        let b = self.take(8)?;
        Ok((b[0] as u64) | ((b[1] as u64) << 8) | ((b[2] as u64) << 16) | ((b[3] as u64) << 24)
            | ((b[4] as u64) << 32) | ((b[5] as u64) << 40) | ((b[6] as u64) << 48) | ((
        b[7] as u64) << 56))
    }

    /// Read a length-prefixed (`u32`) byte vector.
    pub fn bytes(&mut self) -> (r: Result<Vec<u8>, AuraError>)
        ensures
            final(self).spec_data() == old(self).spec_data(),
            match sp_bytes(old(self).spec_data(), old(self).spec_pos()) {
                Ok((v, q)) => r matches Ok(x) && x@ == v && final(self).spec_pos() == q,
                Err((e, q)) => r == Err::<Vec<u8>, AuraError>(e) && final(self).spec_pos() == q,
            },
    {
        let n = self.u32()?;
        let b = self.take(n as usize)?;
        Ok(vstd::slice::slice_to_vec(b))
    }

    /// Read a length-prefixed UTF-8 string.
    pub fn str(&mut self) -> (r: Result<String, AuraError>)
        ensures
            final(self).spec_data() == old(self).spec_data(),
            match sp_str(old(self).spec_data(), old(self).spec_pos()) {
                Ok((v, q)) => r matches Ok(x) && x@ == v && final(self).spec_pos() == q,
                Err((e, q)) => r == Err::<String, AuraError>(e) && final(self).spec_pos() == q,
            },
    {
        let n = self.u32()?;
        let b = self.take(n as usize)?;
        match utf8_to_string(b) {
            Some(s) => Ok(s),
            None => Err(AuraError::Utf8),
        }
    }

    /// Read exactly `n` raw bytes as a vector.
    pub fn raw(&mut self, n: usize) -> (r: Result<Vec<u8>, AuraError>)
        ensures
            final(self).spec_data() == old(self).spec_data(),
            match sp_take(old(self).spec_data(), old(self).spec_pos(), n as int) {
                Ok((v, q)) => r matches Ok(x) && x@ == v && final(self).spec_pos() == q,
                Err((e, q)) => r == Err::<Vec<u8>, AuraError>(e) && final(self).spec_pos() == q,
            },
    {
        let b = self.take(n)?;
        Ok(vstd::slice::slice_to_vec(b))
    }

    /// Read a fixed-size array of `N` bytes.
    pub fn array<const N: usize>(&mut self) -> (r: Result<[u8; N], AuraError>)
        ensures
            final(self).spec_data() == old(self).spec_data(),
            match sp_take(old(self).spec_data(), old(self).spec_pos(), N as int) {
                Ok((v, q)) => r matches Ok(x) && x@ == v && final(self).spec_pos() == q,
                Err((e, q)) => r == Err::<[u8; N], AuraError>(e) && final(self).spec_pos()
                    == q,
            },
    {
        let b = self.take(N)?;
        let mut a = [0u8; N];
        let mut i: usize = 0;
        while i < N
            invariant
                i <= N,
                b@.len() == N,
                a@.len() == N,
                forall|j: int| 0 <= j < i ==> a@[j] == b@[j],
            decreases N - i,
        {
            a[i] = b[i];
            i = i + 1;
        }
        assert(a@ =~= b@);
        Ok(a)
    }

    /// Skip `n` bytes.
    pub fn skip(&mut self, n: usize) -> (r: Result<(), AuraError>)
        ensures
            final(self).spec_data() == old(self).spec_data(),
            match sp_take(old(self).spec_data(), old(self).spec_pos(), n as int) {
                Ok((v, q)) => r == Ok::<(), AuraError>(()) && final(self).spec_pos() == q,
                Err((e, q)) => r == Err::<(), AuraError>(e) && final(self).spec_pos() == q,
            },
    {
        self.take(n)?;
        Ok(())
    }
}

/// `std::str::from_utf8` followed by an owned copy: the string that `b`
/// encodes, or `None` when `b` is not valid UTF-8. The contract restates the
/// standard library's documented behaviour with vstd's UTF-8 model.
#[verifier::external_body]
fn utf8_to_string(b: &[u8]) -> (r: Option<String>)
    ensures
        r is Some <==> valid_utf8(b@),
        r matches Some(s) ==> s@ == decode_utf8(b@),
{
    match std::str::from_utf8(b) {
        Ok(s) => Some(s.to_owned()),
        Err(_) => None,
    }
}

// ---------------------------------------------------------------------------
// Lists: items encoded one after another, decoded a given number of times.
// ---------------------------------------------------------------------------

/// The items of `xs`, each encoded with `enc`, one after another.
pub open spec fn enc_list<T>(xs: Seq<T>, enc: spec_fn(T) -> Seq<u8>) -> Seq<u8>
    decreases xs.len(),
{
    if xs.len() == 0 {
        Seq::empty()
    } else {
        enc_list(xs.drop_last(), enc) + enc(xs.last())
    }
}

/// `n` items decoded one after another with `dec`, from position `p`.
pub open spec fn sp_list<T>(
    d: Seq<u8>,
    p: int,
    n: nat,
    dec: spec_fn(Seq<u8>, int) -> Result<(T, int), (AuraError, int)>,
) -> Result<(Seq<T>, int), (AuraError, int)>
    decreases n,
{
    if n == 0 {
        Ok((Seq::empty(), p))
    } else {
        match sp_list(d, p, (n - 1) as nat, dec) {
            Err(e) => Err(e),
            Ok((xs, q)) => match dec(d, q) {
                Err(e) => Err(e),
                Ok((x, q2)) => Ok((xs.push(x), q2)),
            },
        }
    }
}

/// `dec` reads back what `enc` writes, for every item satisfying `fits`.
pub open spec fn decodes_back<T>(
    enc: spec_fn(T) -> Seq<u8>,
    dec: spec_fn(Seq<u8>, int) -> Result<(T, int), (AuraError, int)>,
    fits: spec_fn(T) -> bool,
) -> bool {
    forall|d: Seq<u8>, p: int, x: T|
        fits(x) && #[trigger] has_at(d, p, enc(x)) ==> dec(d, p) == Ok::<(T, int), (AuraError, int)>(
            (x, p + enc(x).len()),
        )
}

/// Decoding the encoding of a list gives the list back.
pub proof fn lemma_list_round_trip<T>(
    d: Seq<u8>,
    p: int,
    xs: Seq<T>,
    enc: spec_fn(T) -> Seq<u8>,
    dec: spec_fn(Seq<u8>, int) -> Result<(T, int), (AuraError, int)>,
    fits: spec_fn(T) -> bool,
)
    requires
        has_at(d, p, enc_list(xs, enc)),
        forall|i: int| 0 <= i < xs.len() ==> fits(#[trigger] xs[i]),
        decodes_back(enc, dec, fits),
    ensures
        sp_list(d, p, xs.len(), dec) == Ok::<(Seq<T>, int), (AuraError, int)>(
            (xs, p + enc_list(xs, enc).len()),
        ),
    decreases xs.len(),
{
    if xs.len() == 0 {
        assert(xs =~= Seq::<T>::empty());
    } else {
        let init = xs.drop_last();
        lemma_has_at_split(d, p, enc_list(init, enc), enc(xs.last()));
        assert forall|i: int| 0 <= i < init.len() implies fits(#[trigger] init[i]) by {
            assert(init[i] == xs[i]);
        }
        lemma_list_round_trip(d, p, init, enc, dec, fits);
        assert(fits(xs[xs.len() - 1]));
        let q = p + enc_list(init, enc).len();
        assert(has_at(d, q, enc(xs.last())));
        assert(init.push(xs.last()) =~= xs);
        assert(init.len() == (xs.len() - 1) as nat);
    }
}

/// Once decoding a list fails, decoding a longer list fails the same way.
pub proof fn lemma_sp_list_err<T>(
    d: Seq<u8>,
    p: int,
    k: nat,
    m: nat,
    dec: spec_fn(Seq<u8>, int) -> Result<(T, int), (AuraError, int)>,
)
    requires
        k <= m,
        sp_list(d, p, k, dec) is Err,
    ensures
        sp_list(d, p, m, dec) == sp_list(d, p, k, dec),
    decreases m - k,
{
    if k < m {
        lemma_sp_list_err(d, p, k, (m - 1) as nat, dec);
    }
}


// ---------------------------------------------------------------------------
// CRC-32 detects every change of a single byte
// ---------------------------------------------------------------------------

proof fn lemma_crc_step_linear(x: u32, y: u32)
    ensures
        crc_step(x ^ y) == crc_step(x) ^ crc_step(y),
        x != 0 ==> crc_step(x) != 0,
{
    assert(((x ^ y) & 1 != 0 ==> ((x ^ y) >> 1u32) ^ 0xEDB8_8320u32 == (if x & 1 != 0 {
        (x >> 1u32) ^ 0xEDB8_8320u32
    } else {
        x >> 1u32
    }) ^ (if y & 1 != 0 {
        (y >> 1u32) ^ 0xEDB8_8320u32
    } else {
        y >> 1u32
    })) && ((x ^ y) & 1 == 0 ==> (x ^ y) >> 1u32 == (if x & 1 != 0 {
        (x >> 1u32) ^ 0xEDB8_8320u32
    } else {
        x >> 1u32
    }) ^ (if y & 1 != 0 {
        (y >> 1u32) ^ 0xEDB8_8320u32
    } else {
        y >> 1u32
    }))) by (bit_vector);
    assert(x != 0 ==> (if x & 1 != 0 {
        (x >> 1u32) ^ 0xEDB8_8320u32
    } else {
        x >> 1u32
    }) != 0) by (bit_vector);
}

proof fn lemma_crc_steps_linear(x: u32, y: u32, k: nat)
    ensures
        crc_steps(x ^ y, k) == crc_steps(x, k) ^ crc_steps(y, k),
        x != 0 ==> crc_steps(x, k) != 0,
    decreases k,
{
    if k > 0 {
        lemma_crc_steps_linear(x, y, (k - 1) as nat);
        lemma_crc_step_linear(crc_steps(x, (k - 1) as nat), crc_steps(y, (k - 1) as nat));
    }
}

/// Byte-wise exclusive or of two sequences of equal length.
pub open spec fn xor_seq(a: Seq<u8>, b: Seq<u8>) -> Seq<u8> {
    Seq::new(a.len(), |i: int| a[i] ^ b[i])
}

proof fn lemma_crc_register_xor(i1: u32, i2: u32, a: Seq<u8>, b: Seq<u8>)
    requires
        a.len() == b.len(),
    ensures
        crc_register(i1, a) ^ crc_register(i2, b) == crc_register(i1 ^ i2, xor_seq(a, b)),
    decreases a.len(),
{
    if a.len() > 0 {
        let x = xor_seq(a, b);
        assert(x.drop_last() =~= xor_seq(a.drop_last(), b.drop_last()));
        lemma_crc_register_xor(i1, i2, a.drop_last(), b.drop_last());
        let ra = crc_register(i1, a.drop_last());
        let rb = crc_register(i2, b.drop_last());
        let la = a.last();
        let lb = b.last();
        assert(x.last() == la ^ lb);
        assert((ra ^ (la as u32)) ^ (rb ^ (lb as u32)) == (ra ^ rb) ^ ((la ^ lb) as u32)) by (bit_vector);
        lemma_crc_steps_linear(ra ^ (la as u32), rb ^ (lb as u32), 8);
    }
}

/// From a zero register, absorbing zeros with one non-zero byte at `i` leaves
/// a non-zero register once that byte is in.
proof fn lemma_crc_register_single(x: Seq<u8>, i: int)
    requires
        0 <= i < x.len(),
        x[i] != 0,
        forall|j: int| 0 <= j < x.len() && j != i ==> x[j] == 0,
    ensures
        crc_register(0, x) != 0,
    decreases x.len(),
{
    let init = x.drop_last();
    let l = x.last();
    if i == x.len() - 1 {
        assert forall|j: int| 0 <= j < init.len() implies init[j] == 0 by {
            assert(init[j] == x[j]);
        }
        lemma_crc_register_zeros(init);
        lemma_crc_steps_linear(l as u32, 0, 8);
        assert((0u32 ^ (l as u32)) == l as u32) by (bit_vector);
        assert(l != 0 ==> l as u32 != 0) by (bit_vector);
    } else {
        assert(init[i] == x[i]);
        assert forall|j: int| 0 <= j < init.len() && j != i implies init[j] == 0 by {
            assert(init[j] == x[j]);
        }
        lemma_crc_register_single(init, i);
        let r = crc_register(0, init);
        assert(l == x[x.len() - 1]);
        assert(r ^ (0u8 as u32) == r) by (bit_vector);
        lemma_crc_steps_linear(r, 0, 8);
    }
}

proof fn lemma_crc_register_zeros(x: Seq<u8>)
    requires
        forall|j: int| 0 <= j < x.len() ==> x[j] == 0,
    ensures
        crc_register(0, x) == 0,
    decreases x.len(),
{
    if x.len() > 0 {
        let init = x.drop_last();
        assert forall|j: int| 0 <= j < init.len() implies init[j] == 0 by {
            assert(init[j] == x[j]);
        }
        lemma_crc_register_zeros(init);
        assert(x.last() == x[x.len() - 1]);
        let l = x.last();
        assert(l == 0 ==> 0u32 ^ (l as u32) == 0) by (bit_vector);
        lemma_crc_steps_linear(0, 0, 8);
        let z = crc_steps(0u32, 8);
        assert(0u32 ^ 0u32 == 0) by (bit_vector);
        assert(z ^ z == 0) by (bit_vector);
    }
}

/// Changing one byte changes the CRC-32.
pub proof fn law_crc_detects_byte_change(a: Seq<u8>, i: int, v: u8)
    requires
        0 <= i < a.len(),
        v != a[i],
    ensures
        spec_crc32(a.update(i, v)) != spec_crc32(a),
{
    let b = a.update(i, v);
    lemma_crc_register_xor(0xFFFF_FFFFu32, 0xFFFF_FFFFu32, a, b);
    let x = xor_seq(a, b);
    assert forall|j: int| 0 <= j < x.len() && j != i implies x[j] == 0 by {
        let c = a[j];
        assert(c ^ c == 0) by (bit_vector);
    }
    let ai = a[i];
    assert(ai != v ==> ai ^ v != 0) by (bit_vector);
    assert(0xFFFF_FFFFu32 ^ 0xFFFF_FFFFu32 == 0) by (bit_vector);
    lemma_crc_register_single(x, i);
    let ra = crc_register(0xFFFF_FFFFu32, a);
    let rb = crc_register(0xFFFF_FFFFu32, b);
    assert(ra ^ rb != 0 ==> (ra ^ 0xFFFF_FFFFu32) != (rb ^ 0xFFFF_FFFFu32)) by (bit_vector);
}

} // verus!
