//! Cryptographic provenance: the C2PA-style immutable trust chain.
//!
//! A [`GenesisBlock`] captures the sensor readout hash plus a hardware
//! signature, and a [`ProvenanceLedger`] is an append-only, signed history of
//! every operation applied to the asset. [`ProvenanceLedger::verify`]
//! recomputes the hash chain and checks each ed25519 signature, breaking the
//! trust seal on the first inconsistency.
use crate::codec::{
    enc_bytes, enc_str, has_at, le_u32, le_u64, lemma_has_at_split, lemma_has_at_split3,
    lemma_sp_bytes, lemma_sp_str, lemma_sp_take, lemma_sp_u32, lemma_sp_u64, lemma_sp_u8, sp_bytes,
    sp_str, sp_take, sp_u32, sp_u64, sp_u8, Reader, Writer,
};
pub use crate::crypto::sha3_256;
use crate::crypto::{
    ed25519_key_valid, ed25519_public, ed25519_sign, ed25519_verify,
    spec_ed25519_key_valid, spec_ed25519_public, spec_ed25519_sign, spec_ed25519_verify,
    spec_sha3_256,
};
use crate::error::AuraError;
use crate::text::{bytes_eq, hex_chars, json_escape, push_hex, push_json_escaped};
use vstd::prelude::*;
use vstd::utf8::*;

verus! {

broadcast use vstd::utf8::encode_utf8_decode_utf8, vstd::utf8::encode_utf8_valid_utf8;

// ---------------------------------------------------------------------------
// Keys
// ---------------------------------------------------------------------------

/// An ed25519 device signing key, held as its 32 secret bytes.
#[derive(Clone)]
pub struct SigningKey {
    secret: [u8; 32],
}

impl SigningKey {
    /// The secret key bytes.
    pub closed spec fn spec_secret(&self) -> Seq<u8> {
        self.secret@
    }

    /// A signing key from its 32 secret bytes.
    pub fn from_bytes(secret: &[u8; 32]) -> (k: Self)
        ensures
            k.spec_secret() == secret@,
    {
        SigningKey { secret: *secret }
    }

    /// The 32 secret bytes.
    pub fn to_bytes(&self) -> (b: [u8; 32])
        ensures
            b@ == self.spec_secret(),
    {
        self.secret
    }

    /// The public half of the key.
    pub fn verifying_key(&self) -> (vk: VerifyingKey)
        ensures
            vk@ == spec_ed25519_public(self.spec_secret()),
            spec_ed25519_key_valid(vk@),
    {
        VerifyingKey { bytes: ed25519_public(&self.secret) }
    }
}

/// An ed25519 public key (32 compressed bytes) that decodes to a curve point.
#[derive(Debug, Clone, PartialEq, Eq)]
pub struct VerifyingKey {
    bytes: [u8; 32],
}

impl View for VerifyingKey {
    type V = Seq<u8>;

    closed spec fn view(&self) -> Seq<u8> {
        self.bytes@
    }
}

impl VerifyingKey {
    /// The 32 compressed key bytes.
    pub fn to_bytes(&self) -> (b: [u8; 32])
        ensures
            b@ == self@,
    {
        self.bytes
    }
}

// ---------------------------------------------------------------------------
// Operation types
// ---------------------------------------------------------------------------

/// The kind of operation recorded in a [`LedgerEntry`].
#[derive(Debug, Clone, Copy, PartialEq, Eq, Structural)]
pub enum OpType {
    /// Raw sensor capture.
    Capture,
    /// A semantic-graph edit (mask/label change).
    SemanticEdit,
    /// A color-grade / tone operation.
    ColorGrade,
    /// A crop / geometric transform.
    Crop,
    /// A compile to a delivery target.
    Compile,
    /// Any other operation.
    Other,
}

/// The on-disk tag of an operation.
pub open spec fn op_tag(op: OpType) -> u8 {
    match op {
        OpType::Capture => 0,
        OpType::SemanticEdit => 1,
        OpType::ColorGrade => 2,
        OpType::Crop => 3,
        OpType::Compile => 4,
        OpType::Other => 5,
    }
}

/// The operation an on-disk tag stands for (unknown tags read as `Other`).
pub open spec fn op_from_tag(v: u8) -> OpType {
    if v == 0 {
        OpType::Capture
    } else if v == 1 {
        OpType::SemanticEdit
    } else if v == 2 {
        OpType::ColorGrade
    } else if v == 3 {
        OpType::Crop
    } else if v == 4 {
        OpType::Compile
    } else {
        OpType::Other
    }
}

/// The variant name of an operation (as `Debug` prints it).
pub open spec fn op_name(op: OpType) -> Seq<char> {
    match op {
        OpType::Capture => "Capture"@,
        OpType::SemanticEdit => "SemanticEdit"@,
        OpType::ColorGrade => "ColorGrade"@,
        OpType::Crop => "Crop"@,
        OpType::Compile => "Compile"@,
        OpType::Other => "Other"@,
    }
}

/// The lowercase variant name of an operation.
pub open spec fn op_name_lower(op: OpType) -> Seq<char> {
    match op {
        OpType::Capture => "capture"@,
        OpType::SemanticEdit => "semanticedit"@,
        OpType::ColorGrade => "colorgrade"@,
        OpType::Crop => "crop"@,
        OpType::Compile => "compile"@,
        OpType::Other => "other"@,
    }
}

impl OpType {
    /// Map to the on-disk `u8` tag.
    pub fn to_u8(self) -> (r: u8)
        ensures
            r == op_tag(self),
    {
        match self {
            OpType::Capture => 0,
            OpType::SemanticEdit => 1,
            OpType::ColorGrade => 2,
            OpType::Crop => 3,
            OpType::Compile => 4,
            OpType::Other => 5,
        }
    }

    /// Reconstruct from the on-disk `u8` tag.
    pub fn from_u8(v: u8) -> (r: OpType)
        ensures
            r == op_from_tag(v),
    {
        match v {
            0 => OpType::Capture,
            1 => OpType::SemanticEdit,
            2 => OpType::ColorGrade,
            3 => OpType::Crop,
            4 => OpType::Compile,
            _ => OpType::Other,
        }
    }

    /// The variant name, as `Debug` prints it.
    pub fn name(self) -> (s: &'static str)
        ensures
            s@ == op_name(self),
    {
        match self {
            OpType::Capture => "Capture",
            OpType::SemanticEdit => "SemanticEdit",
            OpType::ColorGrade => "ColorGrade",
            OpType::Crop => "Crop",
            OpType::Compile => "Compile",
            OpType::Other => "Other",
        }
    }

    fn name_lower(self) -> (s: &'static str)
        ensures
            s@ == op_name_lower(self),
    {
        match self {
            OpType::Capture => "capture",
            OpType::SemanticEdit => "semanticedit",
            OpType::ColorGrade => "colorgrade",
            OpType::Crop => "crop",
            OpType::Compile => "compile",
            OpType::Other => "other",
        }
    }
}

/// Every operation survives the trip through its on-disk tag.
pub proof fn lemma_op_tag_round_trip(op: OpType)
    ensures
        op_from_tag(op_tag(op)) == op,
{
}

// ---------------------------------------------------------------------------
// Genesis block
// ---------------------------------------------------------------------------

/// The immutable root of the trust chain: the sensor readout hash plus a
/// hardware enclave signature over it.
#[derive(Debug, Clone, PartialEq, Eq)]
pub struct GenesisBlock {
    /// SHA-3-256 of the raw sensor data at the moment of capture.
    pub data_hash: [u8; 32],
    /// Opaque device identifier (e.g. secure-element serial).
    pub device_id: [u8; 16],
    /// Unix epoch milliseconds of capture.
    pub timestamp: u64,
    /// Signature (over `data_hash || device_id || timestamp`) produced by the
    /// camera's secure enclave.
    pub hardware_sig: Vec<u8>,
}

/// The abstract value of a [`GenesisBlock`].
pub struct GenesisView {
    pub data_hash: Seq<u8>,
    pub device_id: Seq<u8>,
    pub timestamp: u64,
    pub hardware_sig: Seq<u8>,
}

impl View for GenesisBlock {
    type V = GenesisView;

    open spec fn view(&self) -> GenesisView {
        GenesisView {
            data_hash: self.data_hash@,
            device_id: self.device_id@,
            timestamp: self.timestamp,
            hardware_sig: self.hardware_sig@,
        }
    }
}

/// The message the hardware signature covers.
pub open spec fn genesis_msg(data_hash: Seq<u8>, device_id: Seq<u8>, timestamp: u64) -> Seq<u8> {
    data_hash + device_id + le_u64(timestamp)
}

/// What [`GenesisBlock::verify`] returns for a block and a public key.
pub open spec fn genesis_check(g: GenesisView, public: Seq<u8>) -> Result<(), AuraError> {
    if g.hardware_sig.len() != 64 {
        Err(AuraError::InvalidLength)
    } else if spec_ed25519_verify(
        public,
        genesis_msg(g.data_hash, g.device_id, g.timestamp),
        g.hardware_sig,
    ) {
        Ok(())
    } else {
        Err(AuraError::SignatureInvalid)
    }
}

/// The serialized form of a genesis block.
pub open spec fn enc_genesis(g: GenesisView) -> Seq<u8> {
    g.data_hash + g.device_id + le_u64(g.timestamp) + enc_bytes(g.hardware_sig)
}

/// A genesis block decoded at position `p`.
pub open spec fn sp_genesis(d: Seq<u8>, p: int) -> Result<(GenesisView, int), (AuraError, int)> {
    match sp_take(d, p, 32) {
        Err(e) => Err(e),
        Ok((h, p1)) => match sp_take(d, p1, 16) {
            Err(e) => Err(e),
            Ok((id, p2)) => match sp_u64(d, p2) {
                Err(e) => Err(e),
                Ok((ts, p3)) => match sp_bytes(d, p3) {
                    Err(e) => Err(e),
                    Ok((sig, p4)) => Ok(
                        (GenesisView { data_hash: h, device_id: id, timestamp: ts, hardware_sig: sig }, p4),
                    ),
                },
            },
        },
    }
}

/// A genesis block whose fields have their fixed sizes and whose signature
/// fits a `u32` length prefix.
pub open spec fn genesis_fits(g: GenesisView) -> bool {
    &&& g.data_hash.len() == 32
    &&& g.device_id.len() == 16
    &&& g.hardware_sig.len() <= u32::MAX
}

/// Decoding any proper prefix of an encoded genesis block fails with
/// [`AuraError::UnexpectedEof`].
pub proof fn law_genesis_prefix_is_eof(g: GenesisView, m: int)
    requires
        genesis_fits(g),
        0 <= m < enc_genesis(g).len(),
    ensures
        sp_genesis(enc_genesis(g).subrange(0, m), 0) matches Err((e, _)) && e
            == AuraError::UnexpectedEof,
{
    let full = enc_genesis(g);
    let d = full.subrange(0, m);
    let n = g.hardware_sig.len();
    assert(full.len() == 60 + n);
    if m >= 60 {
        let lv = le_u32(n as u32);
        assert(full.subrange(56, 60) =~= lv);
        assert(d.subrange(56, 60) =~= lv);
        lemma_sp_u32(d, 56, n as u32);
        assert(sp_take(d, 0, 32) == Ok::<(Seq<u8>, int), (AuraError, int)>((d.subrange(0, 32), 32)));
    }
}

/// Decoding the encoding of a genesis block gives the block back.
pub proof fn lemma_genesis_round_trip(d: Seq<u8>, p: int, g: GenesisView)
    requires
        has_at(d, p, enc_genesis(g)),
        genesis_fits(g),
    ensures
        sp_genesis(d, p) == Ok::<(GenesisView, int), (AuraError, int)>(
            (g, p + enc_genesis(g).len()),
        ),
{
    lemma_has_at_split(d, p, g.data_hash + g.device_id + le_u64(g.timestamp), enc_bytes(g.hardware_sig));
    lemma_has_at_split3(d, p, g.data_hash, g.device_id, le_u64(g.timestamp));
    lemma_sp_take(d, p, g.data_hash);
    lemma_sp_take(d, p + 32, g.device_id);
    lemma_sp_u64(d, p + 48, g.timestamp);
    lemma_sp_bytes(d, p + 56, g.hardware_sig);
}

impl GenesisBlock {
    /// Create and sign a genesis block.
    pub fn sign(
        signing_key: &SigningKey,
        data_hash: [u8; 32],
        device_id: [u8; 16],
        timestamp: u64,
    ) -> (g: Self)
        ensures
            g.data_hash == data_hash,
            g.device_id == device_id,
            g.timestamp == timestamp,
            g.hardware_sig@ == spec_ed25519_sign(
                signing_key.spec_secret(),
                genesis_msg(data_hash@, device_id@, timestamp),
            ),
            g.hardware_sig@.len() == 64,
            // A freshly signed block verifies under the signer's public key.
            genesis_check(g@, spec_ed25519_public(signing_key.spec_secret())) == Ok::<(), AuraError>(()),
    {
        let mut w = Writer::new();
        w.put_raw(&data_hash);
        w.put_raw(&device_id);
        w.put_u64(timestamp);
        let msg = w.into_inner();
        let sig = ed25519_sign(&signing_key.secret, msg.as_slice());
        let hardware_sig = vstd::slice::slice_to_vec(sig.as_slice());
        GenesisBlock { data_hash, device_id, timestamp, hardware_sig }
    }

    /// Verify the hardware signature against the given public key.
    pub fn verify(&self, verifying_key: &VerifyingKey) -> (r: Result<(), AuraError>)
        ensures
            r == genesis_check(self@, verifying_key@),
    {
        let mut w = Writer::new();
        w.put_raw(&self.data_hash);
        w.put_raw(&self.device_id);
        w.put_u64(self.timestamp);
        let msg = w.into_inner();
        if self.hardware_sig.len() != 64 {
            return Err(AuraError::InvalidLength);
        }
        let mut sig = [0u8; 64];
        let mut i: usize = 0;
        while i < 64
            invariant
                i <= 64,
                self.hardware_sig@.len() == 64,
                forall|j: int| 0 <= j < i ==> sig@[j] == self.hardware_sig@[j],
            decreases 64 - i,
        {
            sig[i] = self.hardware_sig[i];
            i = i + 1;
        }
        assert(sig@ =~= self.hardware_sig@);
        if ed25519_verify(&verifying_key.bytes, msg.as_slice(), &sig) {
            Ok(())
        } else {
            Err(AuraError::SignatureInvalid)
        }
    }

    /// Serialize into a writer.
    pub fn encode(&self, w: &mut Writer)
        ensures
            final(w)@ == old(w)@ + enc_genesis(self@),
    {
        w.put_raw(&self.data_hash);
        w.put_raw(&self.device_id);
        w.put_u64(self.timestamp);
        w.put_bytes(self.hardware_sig.as_slice());
        assert(w@ =~= old(w)@ + enc_genesis(self@));
    }

    /// Deserialize from a reader.
    pub fn decode(r: &mut Reader) -> (res: Result<Self, AuraError>)
        ensures
            final(r).spec_data() == old(r).spec_data(),
            match sp_genesis(old(r).spec_data(), old(r).spec_pos()) {
                Ok((v, q)) => res matches Ok(g) && g@ == v && final(r).spec_pos() == q,
                Err((e, q)) => res == Err::<Self, AuraError>(e) && final(r).spec_pos() == q,
            },
    {
        let data_hash = r.array::<32>()?;
        let device_id = r.array::<16>()?;
        let timestamp = r.u64()?;
        let hardware_sig = r.bytes()?;
        Ok(GenesisBlock { data_hash, device_id, timestamp, hardware_sig })
    }
}

// ---------------------------------------------------------------------------
// Ledger entries
// ---------------------------------------------------------------------------

/// A single signed entry in the provenance ledger.
#[derive(Debug, Clone, PartialEq, Eq)]
pub struct LedgerEntry {
    /// Operation type.
    pub op: OpType,
    /// Human-readable software that produced the operation.
    pub software: String,
    /// Hash of the asset state prior to this operation.
    pub prev_hash: [u8; 32],
    /// Hash of the asset state after this operation.
    pub resulting_hash: [u8; 32],
    /// ed25519 signature over `(prev_hash || op || software || resulting_hash)`.
    pub signature: [u8; 64],
}

/// The abstract value of a [`LedgerEntry`].
pub struct EntryView {
    pub op: OpType,
    pub software: Seq<char>,
    pub prev_hash: Seq<u8>,
    pub resulting_hash: Seq<u8>,
    pub signature: Seq<u8>,
}

impl View for LedgerEntry {
    type V = EntryView;

    open spec fn view(&self) -> EntryView {
        EntryView {
            op: self.op,
            software: self.software@,
            prev_hash: self.prev_hash@,
            resulting_hash: self.resulting_hash@,
            signature: self.signature@,
        }
    }
}

/// The bytes an entry's resulting hash is computed from.
pub open spec fn entry_hash_input(prev: Seq<u8>, op: OpType, software: Seq<char>) -> Seq<u8> {
    prev + seq![op_tag(op)] + encode_utf8(software)
}

/// The serialized form of an entry.
pub open spec fn enc_entry(e: EntryView) -> Seq<u8> {
    seq![op_tag(e.op)] + enc_str(e.software) + e.prev_hash + e.resulting_hash + e.signature
}

/// An entry decoded at position `p`.
pub open spec fn sp_entry(d: Seq<u8>, p: int) -> Result<(EntryView, int), (AuraError, int)> {
    match sp_u8(d, p) {
        Err(e) => Err(e),
        Ok((tag, p1)) => match sp_str(d, p1) {
            Err(e) => Err(e),
            Ok((sw, p2)) => match sp_take(d, p2, 32) {
                Err(e) => Err(e),
                Ok((prev, p3)) => match sp_take(d, p3, 32) {
                    Err(e) => Err(e),
                    Ok((res, p4)) => match sp_take(d, p4, 64) {
                        Err(e) => Err(e),
                        Ok((sig, p5)) => Ok(
                            (
                                EntryView {
                                    op: op_from_tag(tag),
                                    software: sw,
                                    prev_hash: prev,
                                    resulting_hash: res,
                                    signature: sig,
                                },
                                p5,
                            ),
                        ),
                    },
                },
            },
        },
    }
}

/// An entry whose hashes and signature have their fixed sizes and whose
/// software name fits a `u32` length prefix.
pub open spec fn entry_fits(e: EntryView) -> bool {
    &&& encode_utf8(e.software).len() <= u32::MAX
    &&& e.prev_hash.len() == 32
    &&& e.resulting_hash.len() == 32
    &&& e.signature.len() == 64
}

/// Decoding the encoding of a ledger entry gives the entry back.
pub proof fn lemma_entry_round_trip(d: Seq<u8>, p: int, e: EntryView)
    requires
        has_at(d, p, enc_entry(e)),
        entry_fits(e),
    ensures
        sp_entry(d, p) == Ok::<(EntryView, int), (AuraError, int)>((e, p + enc_entry(e).len())),
{
    let a = seq![op_tag(e.op)];
    let b = enc_str(e.software);
    lemma_has_at_split(d, p, a + b + e.prev_hash + e.resulting_hash, e.signature);
    lemma_has_at_split(d, p, a + b + e.prev_hash, e.resulting_hash);
    lemma_has_at_split3(d, p, a, b, e.prev_hash);
    lemma_sp_u8(d, p, op_tag(e.op));
    lemma_sp_str(d, p + 1, e.software);
    lemma_sp_take(d, p + 1 + b.len(), e.prev_hash);
    lemma_sp_take(d, p + 1 + b.len() + 32, e.resulting_hash);
    lemma_sp_take(d, p + 1 + b.len() + 64, e.signature);
    lemma_op_tag_round_trip(e.op);
}

impl LedgerEntry {
    fn encode(&self, w: &mut Writer)
        ensures
            final(w)@ == old(w)@ + enc_entry(self@),
    {
        w.put_u8(self.op.to_u8());
        w.put_str(self.software.as_str());
        w.put_raw(&self.prev_hash);
        w.put_raw(&self.resulting_hash);
        w.put_raw(&self.signature);
        assert(w@ =~= old(w)@ + enc_entry(self@));
    }

    fn decode(r: &mut Reader) -> (res: Result<Self, AuraError>)
        ensures
            final(r).spec_data() == old(r).spec_data(),
            match sp_entry(old(r).spec_data(), old(r).spec_pos()) {
                Ok((v, q)) => res matches Ok(e) && e@ == v && final(r).spec_pos() == q,
                Err((e, q)) => res == Err::<Self, AuraError>(e) && final(r).spec_pos() == q,
            },
    {
        let op = OpType::from_u8(r.u8()?);
        let software = r.str()?;
        let prev_hash = r.array::<32>()?;
        let resulting_hash = r.array::<32>()?;
        let signature = r.array::<64>()?;
        Ok(LedgerEntry { op, software, prev_hash, resulting_hash, signature })
    }
}

// ---------------------------------------------------------------------------
// The ledger
// ---------------------------------------------------------------------------

/// Append-only, signed edit history anchored to a [`GenesisBlock`].
#[derive(Debug, Clone)]
pub struct ProvenanceLedger {
    pub(crate) signer: [u8; 32],
    pub(crate) root_hash: [u8; 32],
    pub(crate) current_hash: [u8; 32],
    /// The ordered list of operations.
    pub entries: Vec<LedgerEntry>,
}

/// The abstract value of a [`ProvenanceLedger`].
pub struct LedgerView {
    pub signer: Seq<u8>,
    pub root_hash: Seq<u8>,
    pub current_hash: Seq<u8>,
    pub entries: Seq<EntryView>,
}

impl ProvenanceLedger {
    /// The abstract value agrees with the public entry list, and the three
    /// hashes are 32 bytes long.
    pub(crate) proof fn lemma_view(&self)
        ensures
            self@.entries == self.entries@.map_values(|e: LedgerEntry| e@),
            self@.signer.len() == 32,
            self@.root_hash.len() == 32,
            self@.current_hash.len() == 32,
    {
    }
}

impl View for ProvenanceLedger {
    type V = LedgerView;

    closed spec fn view(&self) -> LedgerView {
        LedgerView {
            signer: self.signer@,
            root_hash: self.root_hash@,
            current_hash: self.current_hash@,
            entries: self.entries@.map_values(|e: LedgerEntry| e@),
        }
    }
}

/// The hash the next entry must link to: the last resulting hash, or `prev`
/// when there are no entries.
pub open spec fn head_of(entries: Seq<EntryView>, prev: Seq<u8>) -> Seq<u8> {
    if entries.len() == 0 {
        prev
    } else {
        entries.last().resulting_hash
    }
}

/// The hash of the latest state according to the entries themselves.
pub open spec fn chain_head(l: LedgerView) -> Seq<u8> {
    head_of(l.entries, l.root_hash)
}

/// The ledger's entries form a hash chain from its root: the first entry
/// links to the root hash, each later one to the resulting hash of the one
/// before, and the current hash is the head of that chain.
pub open spec fn chain_linked(l: LedgerView) -> bool {
    &&& l.current_hash == chain_head(l)
    &&& l.entries.len() > 0 ==> l.entries[0].prev_hash == l.root_hash
    &&& forall|i: int|
        0 < i < l.entries.len() ==> #[trigger] l.entries[i].prev_hash == l.entries[i - 1].resulting_hash
}

/// Chain law: appending any operation, with any key, to a linked ledger
/// keeps it linked.
pub proof fn law_append_keeps_links(l: LedgerView, op: OpType, software: Seq<char>, secret: Seq<u8>)
    requires
        chain_linked(l),
    ensures
        chain_linked(appended(l, op, software, secret)),
{
    let l2 = appended(l, op, software, secret);
    assert forall|i: int| 0 < i < l2.entries.len() implies #[trigger] l2.entries[i].prev_hash
        == l2.entries[i - 1].resulting_hash by {
        if i < l.entries.len() {
            assert(l2.entries[i] == l.entries[i]);
        }
    }
}

/// The first inconsistency [`ProvenanceLedger::verify`] reports.
pub enum LedgerFault {
    /// The signer bytes are not a valid public key.
    BadKey,
    /// An entry does not link to the previous hash; it carries the entry's
    /// `prev_hash`.
    LinkBroken(Seq<u8>),
    /// An entry's resulting hash is not the hash of its input.
    HashMismatch,
    /// An entry's signature does not verify.
    BadSignature,
}

/// Check `entries` in order, starting from the hash `prev`.
pub open spec fn check_entries(signer: Seq<u8>, entries: Seq<EntryView>, prev: Seq<u8>) -> Result<
    (),
    LedgerFault,
>
    decreases entries.len(),
{
    if entries.len() == 0 {
        Ok(())
    } else {
        let e = entries[0];
        let input = entry_hash_input(e.prev_hash, e.op, e.software);
        if e.prev_hash != prev {
            Err(LedgerFault::LinkBroken(e.prev_hash))
        } else if e.resulting_hash != spec_sha3_256(input) {
            Err(LedgerFault::HashMismatch)
        } else if !spec_ed25519_verify(signer, input + e.resulting_hash, e.signature) {
            Err(LedgerFault::BadSignature)
        } else {
            check_entries(signer, entries.drop_first(), e.resulting_hash)
        }
    }
}

/// The outcome of verifying a ledger: hash continuity, resulting-hash
/// integrity and every signature, in entry order.
pub open spec fn ledger_check(l: LedgerView) -> Result<(), LedgerFault> {
    if !spec_ed25519_key_valid(l.signer) {
        Err(LedgerFault::BadKey)
    } else {
        check_entries(l.signer, l.entries, l.root_hash)
    }
}

/// The error [`ProvenanceLedger::verify`] returns for a fault.
pub open spec fn fault_is(e: AuraError, f: LedgerFault) -> bool {
    match f {
        LedgerFault::BadKey => e == AuraError::InvalidLength,
        LedgerFault::LinkBroken(h) => e matches AuraError::TrustSealBroken(s) && s@
            == "prev-hash link broken at entry "@ + hex_chars(h),
        LedgerFault::HashMismatch => e matches AuraError::TrustSealBroken(s) && s@
            == "resulting-hash recomputation mismatch"@,
        LedgerFault::BadSignature => e == AuraError::SignatureInvalid,
    }
}

/// `r` is the result that corresponds to the outcome `c`.
pub open spec fn reports(r: Result<(), AuraError>, c: Result<(), LedgerFault>) -> bool {
    match c {
        Ok(()) => r is Ok,
        Err(f) => r matches Err(e) && fault_is(e, f),
    }
}

/// The ledger after appending `op` by `software`, signed with `secret`.
pub open spec fn appended(l: LedgerView, op: OpType, software: Seq<char>, secret: Seq<u8>) -> LedgerView {
    let input = entry_hash_input(l.current_hash, op, software);
    let res = spec_sha3_256(input);
    LedgerView {
        signer: l.signer,
        root_hash: l.root_hash,
        current_hash: res,
        entries: l.entries.push(
            EntryView {
                op,
                software,
                prev_hash: l.current_hash,
                resulting_hash: res,
                signature: spec_ed25519_sign(secret, input + res),
            },
        ),
    }
}

/// A checked chain stays checked when an entry is added: the result is the
/// check of the new entry against the head of the chain.
pub proof fn lemma_check_entries_push(
    signer: Seq<u8>,
    entries: Seq<EntryView>,
    prev: Seq<u8>,
    e: EntryView,
)
    requires
        check_entries(signer, entries, prev) is Ok,
    ensures
        check_entries(signer, entries.push(e), prev) == check_entries(
            signer,
            seq![e],
            head_of(entries, prev),
        ),
    decreases entries.len(),
{
    if entries.len() == 0 {
        assert(entries.push(e) =~= seq![e]);
    } else {
        let first = entries[0];
        assert(entries.push(e)[0] == first);
        assert(entries.push(e).drop_first() =~= entries.drop_first().push(e));
        lemma_check_entries_push(signer, entries.drop_first(), first.resulting_hash, e);
        if entries.len() > 1 {
            assert(entries.drop_first().last() == entries.last());
        }
    }
}

/// Appending to a verifying ledger whose current hash is its chain head, with
/// the key the ledger trusts, keeps it verifying and keeps the current hash
/// at the chain head.
pub proof fn lemma_append_keeps_chain(l: LedgerView, op: OpType, software: Seq<char>, secret: Seq<u8>)
    requires
        ledger_check(l) is Ok,
        l.signer == spec_ed25519_public(secret),
        l.current_hash == chain_head(l),
        ({
            let input = entry_hash_input(l.current_hash, op, software);
            let res = spec_sha3_256(input);
            spec_ed25519_verify(
                spec_ed25519_public(secret),
                input + res,
                spec_ed25519_sign(secret, input + res),
            )
        }),
    ensures
        ledger_check(appended(l, op, software, secret)) is Ok,
        appended(l, op, software, secret).current_hash == chain_head(
            appended(l, op, software, secret),
        ),
{
    let l2 = appended(l, op, software, secret);
    let e = l2.entries.last();
    lemma_check_entries_push(l.signer, l.entries, l.root_hash, e);
    assert(seq![e].drop_first() =~= Seq::<EntryView>::empty());
    assert(check_entries(l.signer, Seq::<EntryView>::empty(), e.resulting_hash) is Ok);
    assert(check_entries(l.signer, seq![e], head_of(l.entries, l.root_hash)) is Ok);
}

/// Once decoding a list of entries fails, decoding a longer list fails the
/// same way.
pub proof fn lemma_sp_entries_err(d: Seq<u8>, p: int, k: nat, m: nat)
    requires
        k <= m,
        sp_entries(d, p, k) is Err,
    ensures
        sp_entries(d, p, m) == sp_entries(d, p, k),
    decreases m - k,
{
    if k < m {
        lemma_sp_entries_err(d, p, k, (m - 1) as nat);
    }
}

/// The serialized form of a list of entries.
pub open spec fn enc_entries(es: Seq<EntryView>) -> Seq<u8>
    decreases es.len(),
{
    if es.len() == 0 {
        Seq::empty()
    } else {
        enc_entries(es.drop_last()) + enc_entry(es.last())
    }
}

/// `n` entries decoded one after another from position `p`.
pub open spec fn sp_entries(d: Seq<u8>, p: int, n: nat) -> Result<(Seq<EntryView>, int), (AuraError, int)>
    decreases n,
{
    if n == 0 {
        Ok((Seq::empty(), p))
    } else {
        match sp_entries(d, p, (n - 1) as nat) {
            Err(e) => Err(e),
            Ok((es, q)) => match sp_entry(d, q) {
                Err(e) => Err(e),
                Ok((e, q2)) => Ok((es.push(e), q2)),
            },
        }
    }
}

/// The serialized form of a ledger.
pub open spec fn enc_ledger(l: LedgerView) -> Seq<u8> {
    l.signer + l.root_hash + l.current_hash + le_u32(l.entries.len() as u32) + enc_entries(
        l.entries,
    )
}

/// A ledger decoded at position `p`.
pub open spec fn sp_ledger(d: Seq<u8>, p: int) -> Result<(LedgerView, int), (AuraError, int)> {
    match sp_take(d, p, 32) {
        Err(e) => Err(e),
        Ok((signer, p1)) => match sp_take(d, p1, 32) {
            Err(e) => Err(e),
            Ok((root, p2)) => match sp_take(d, p2, 32) {
                Err(e) => Err(e),
                Ok((cur, p3)) => match sp_u32(d, p3) {
                    Err(e) => Err(e),
                    Ok((n, p4)) => match sp_entries(d, p4, n as nat) {
                        Err(e) => Err(e),
                        Ok((es, p5)) => Ok(
                            (
                                LedgerView {
                                    signer,
                                    root_hash: root,
                                    current_hash: cur,
                                    entries: es,
                                },
                                p5,
                            ),
                        ),
                    },
                },
            },
        },
    }
}

/// A ledger whose sizes fit its encoding.
pub open spec fn ledger_fits(l: LedgerView) -> bool {
    &&& l.signer.len() == 32
    &&& l.root_hash.len() == 32
    &&& l.current_hash.len() == 32
    &&& l.entries.len() <= u32::MAX
    &&& forall|i: int| 0 <= i < l.entries.len() ==> entry_fits(#[trigger] l.entries[i])
}

/// Decoding the encoding of a list of entries gives the list back.
pub proof fn lemma_entries_round_trip(d: Seq<u8>, p: int, es: Seq<EntryView>)
    requires
        has_at(d, p, enc_entries(es)),
        forall|i: int| 0 <= i < es.len() ==> entry_fits(#[trigger] es[i]),
    ensures
        sp_entries(d, p, es.len()) == Ok::<(Seq<EntryView>, int), (AuraError, int)>(
            (es, p + enc_entries(es).len()),
        ),
    decreases es.len(),
{
    if es.len() == 0 {
        assert(sp_entries(d, p, 0) == Ok::<(Seq<EntryView>, int), (AuraError, int)>((Seq::empty(), p)));
        assert(es =~= Seq::<EntryView>::empty());
    } else {
        let init = es.drop_last();
        assert(enc_entries(es) == enc_entries(init) + enc_entry(es.last()));
        lemma_has_at_split(d, p, enc_entries(init), enc_entry(es.last()));
        assert forall|i: int| 0 <= i < init.len() implies entry_fits(#[trigger] init[i]) by {
            assert(init[i] == es[i]);
        }
        lemma_entries_round_trip(d, p, init);
        assert(entry_fits(es[es.len() - 1]));
        lemma_entry_round_trip(d, p + enc_entries(init).len(), es.last());
        assert(init.push(es.last()) =~= es);
        assert(init.len() == (es.len() - 1) as nat);
    }
}

/// Decoding the encoding of a ledger gives the ledger back.
pub proof fn lemma_ledger_round_trip(d: Seq<u8>, p: int, l: LedgerView)
    requires
        has_at(d, p, enc_ledger(l)),
        ledger_fits(l),
    ensures
        sp_ledger(d, p) == Ok::<(LedgerView, int), (AuraError, int)>((l, p + enc_ledger(l).len())),
{
    let a = l.signer + l.root_hash + l.current_hash;
    lemma_has_at_split(d, p, a + le_u32(l.entries.len() as u32), enc_entries(l.entries));
    lemma_has_at_split(d, p, a, le_u32(l.entries.len() as u32));
    lemma_has_at_split3(d, p, l.signer, l.root_hash, l.current_hash);
    lemma_sp_take(d, p, l.signer);
    lemma_sp_take(d, p + 32, l.root_hash);
    lemma_sp_take(d, p + 64, l.current_hash);
    lemma_sp_u32(d, p + 96, l.entries.len() as u32);
    lemma_entries_round_trip(d, p + 100, l.entries);
}

/// The JSON object of one ledger action in the C2PA manifest.
pub open spec fn action_json(e: EntryView) -> Seq<char> {
    "{\"action\":\""@ + op_name_lower(e.op) + "\",\"softwareAgent\":\""@ + json_escape(
        e.software,
    ) + "\",\"prevHash\":\""@ + hex_chars(e.prev_hash) + "\",\"resultingHash\":\""@ + hex_chars(
        e.resulting_hash,
    ) + "\"}"@
}

/// The comma-separated JSON objects of a list of entries.
pub open spec fn actions_json(es: Seq<EntryView>) -> Seq<char>
    decreases es.len(),
{
    if es.len() == 0 {
        Seq::empty()
    } else if es.len() == 1 {
        action_json(es[0])
    } else {
        actions_json(es.drop_last()) + seq![','] + action_json(es.last())
    }
}

/// The C2PA-style manifest text of a ledger.
pub open spec fn c2pa_manifest(l: LedgerView) -> Seq<char> {
    "{\"claimGenerator\":\"aura-cli/0.1.0\",\"assertions\":{\"c2pa.actions\":["@ + actions_json(
        l.entries,
    ) + "],\"aura.genesis\":\""@ + hex_chars(l.root_hash) + "\"}}"@
}

impl ProvenanceLedger {
    /// Create an empty ledger anchored to `genesis_hash`, verifiable with the
    /// public half of `signing_key`.
    pub fn new(signing_key: &SigningKey, genesis_hash: [u8; 32]) -> (l: Self)
        ensures
            l@.signer == spec_ed25519_public(signing_key.spec_secret()),
            l@.root_hash == genesis_hash@,
            l@.current_hash == genesis_hash@,
            l@.entries.len() == 0,
            ledger_check(l@) == Ok::<(), LedgerFault>(()),
            l@.current_hash == chain_head(l@),
            chain_linked(l@),
            l@ == new_ledger(signing_key.spec_secret(), genesis_hash@),
    {
        let signer = ed25519_public(&signing_key.secret);
        let l = ProvenanceLedger {
            signer,
            root_hash: genesis_hash,
            current_hash: genesis_hash,
            entries: Vec::new(),
        };
        assert(l@.entries =~= Seq::<EntryView>::empty());
        l
    }

    /// Number of entries recorded.
    pub fn len(&self) -> (n: usize)
        ensures
            n == self@.entries.len(),
    {
        self.entries.len()
    }

    /// Whether the ledger has no entries.
    pub fn is_empty(&self) -> (b: bool)
        ensures
            b == (self@.entries.len() == 0),
    {
        self.entries.len() == 0
    }

    /// The hash of the current (latest) asset state.
    pub fn current_hash(&self) -> (h: [u8; 32])
        ensures
            h@ == self@.current_hash,
    {
        self.current_hash
    }

    /// The genesis (root) hash the chain is anchored to.
    pub fn root_hash(&self) -> (h: [u8; 32])
        ensures
            h@ == self@.root_hash,
    {
        self.root_hash
    }

    /// Reconstruct the verifying key for the chain.
    pub fn signer_key(&self) -> (r: Result<VerifyingKey, AuraError>)
        ensures
            spec_ed25519_key_valid(self@.signer) ==> (r matches Ok(k) && k@ == self@.signer),
            !spec_ed25519_key_valid(self@.signer) ==> r == Err::<VerifyingKey, AuraError>(
                AuraError::InvalidLength,
            ),
    {
        if ed25519_key_valid(&self.signer) {
            Ok(VerifyingKey { bytes: self.signer })
        } else {
            Err(AuraError::InvalidLength)
        }
    }

    /// Append a new operation, signing it against the current chain head.
    pub fn append(&mut self, op: OpType, software: &str, signing_key: &SigningKey) -> (r: Result<
        (),
        AuraError,
    >)
        ensures
            r == Ok::<(), AuraError>(()),
            final(self)@ == appended(old(self)@, op, software@, signing_key.spec_secret()),
            // Appending with the trusted key to a verifying ledger whose
            // current hash is its chain head keeps it verifying.
            ledger_check(old(self)@) is Ok && old(self)@.signer == spec_ed25519_public(
                signing_key.spec_secret(),
            ) && old(self)@.current_hash == chain_head(old(self)@) ==> ledger_check(final(self)@) is Ok
                && final(self)@.current_hash == chain_head(final(self)@),
            // Appending keeps the hash chain linked, whatever the key.
            chain_linked(old(self)@) ==> chain_linked(final(self)@),
    {
        let prev = self.current_hash;
        let mut w = Writer::new();
        w.put_raw(&prev);
        w.put_u8(op.to_u8());
        w.put_raw(software.as_bytes());
        let hash_input = w.into_inner();
        let resulting = sha3_256(hash_input.as_slice());
        let mut w2 = Writer::new();
        w2.put_raw(hash_input.as_slice());
        w2.put_raw(&resulting);
        let sig_msg = w2.into_inner();
        let sig = ed25519_sign(&signing_key.secret, sig_msg.as_slice());
        let ghost old_entries = self.entries@;
        self.entries.push(
            LedgerEntry {
                op,
                software: software.to_owned(),
                prev_hash: prev,
                resulting_hash: resulting,
                signature: sig,
            },
        );
        self.current_hash = resulting;
        proof {
            assert(hash_input@ =~= entry_hash_input(prev@, op, software@));
            assert(self@.entries =~= old(self)@.entries.push(self.entries@.last()@));
            assert(self@ == appended(old(self)@, op, software@, signing_key.spec_secret()));
            if ledger_check(old(self)@) is Ok && old(self)@.signer == spec_ed25519_public(
                signing_key.spec_secret(),
            ) && old(self)@.current_hash == chain_head(old(self)@) {
                lemma_append_keeps_chain(old(self)@, op, software@, signing_key.spec_secret());
            }
            if chain_linked(old(self)@) {
                law_append_keeps_links(old(self)@, op, software@, signing_key.spec_secret());
            }
        }
        Ok(())
    }

    /// Verify the entire chain: hash continuity, resulting-hash integrity, and
    /// ed25519 signatures. Returns [`AuraError::TrustSealBroken`] on the first
    /// broken link or hash (bit-flip detection).
    pub fn verify(&self) -> (r: Result<(), AuraError>)
        ensures
            reports(r, ledger_check(self@)),
    {
        if !ed25519_key_valid(&self.signer) {
            return Err(AuraError::InvalidLength);
        }
        let ghost es = self@.entries;
        let mut prev: [u8; 32] = self.root_hash;
        let mut i: usize = 0;
        assert(es.subrange(0, es.len() as int) =~= es);
        while i < self.entries.len()
            invariant
                i <= self.entries@.len(),
                es == self@.entries,
                es.len() == self.entries@.len(),
                spec_ed25519_key_valid(self@.signer),
                ledger_check(self@) == check_entries(
                    self@.signer,
                    es.subrange(i as int, es.len() as int),
                    prev@,
                ),
            decreases self.entries@.len() - i,
        {
            let e = &self.entries[i];
            proof {
                let rest = es.subrange(i as int, es.len() as int);
                assert(rest[0] == es[i as int]);
                assert(es[i as int] == e@);
                assert(rest.drop_first() =~= es.subrange(i as int + 1, es.len() as int));
            }
            if !bytes_eq(&e.prev_hash, &prev) {
                let mut msg = String::new();
                msg.append("prev-hash link broken at entry ");
                push_hex(&mut msg, &e.prev_hash);
                return Err(AuraError::TrustSealBroken(msg));
            }
            let mut w = Writer::new();
            w.put_raw(&e.prev_hash);
            w.put_u8(e.op.to_u8());
            w.put_raw(e.software.as_str().as_bytes());
            let hash_input = w.into_inner();
            assert(hash_input@ =~= entry_hash_input(e.prev_hash@, e.op, e.software@));
            let resulting = sha3_256(hash_input.as_slice());
            if !bytes_eq(&e.resulting_hash, &resulting) {
                return Err(AuraError::TrustSealBroken("resulting-hash recomputation mismatch".to_owned()));
            }
            let mut w2 = Writer::new();
            w2.put_raw(hash_input.as_slice());
            w2.put_raw(&e.resulting_hash);
            let sig_msg = w2.into_inner();
            if !ed25519_verify(&self.signer, sig_msg.as_slice(), &e.signature) {
                return Err(AuraError::SignatureInvalid);
            }
            prev = e.resulting_hash;
            i = i + 1;
        }
        proof {
            assert(es.subrange(i as int, es.len() as int) =~= Seq::<EntryView>::empty());
        }
        Ok(())
    }

    /// Export a minimal C2PA-style manifest (claim + assertions) as JSON text.
    pub fn to_c2pa_manifest(&self) -> (r: Result<String, AuraError>)
        ensures
            r matches Ok(s) && s@ == c2pa_manifest(self@),
    {
        let ghost es = self@.entries;
        let mut actions = String::new();
        let mut i: usize = 0;
        while i < self.entries.len()
            invariant
                i <= self.entries@.len(),
                es == self@.entries,
                es.len() == self.entries@.len(),
                actions@ == actions_json(es.subrange(0, i as int)),
            decreases self.entries@.len() - i,
        {
            let e = &self.entries[i];
            if i > 0 {
                actions.append(",");
            }
            actions.append("{\"action\":\"");
            actions.append(e.op.name_lower());
            actions.append("\",\"softwareAgent\":\"");
            push_json_escaped(&mut actions, e.software.as_str());
            actions.append("\",\"prevHash\":\"");
            push_hex(&mut actions, &e.prev_hash);
            actions.append("\",\"resultingHash\":\"");
            push_hex(&mut actions, &e.resulting_hash);
            actions.append("\"}");
            proof {
                let t = es.subrange(0, i as int + 1);
                assert(t.drop_last() =~= es.subrange(0, i as int));
                assert(t.last() == e@);
                reveal_strlit(",");
                assert(actions@ =~= actions_json(t));
            }
            i = i + 1;
        }
        assert(es.subrange(0, es.len() as int) =~= es);
        let mut m = String::new();
        m.append("{\"claimGenerator\":\"aura-cli/0.1.0\",\"assertions\":{\"c2pa.actions\":[");
        m.append(actions.as_str());
        m.append("],\"aura.genesis\":\"");
        push_hex(&mut m, &self.root_hash);
        m.append("\"}}");
        assert(m@ =~= c2pa_manifest(self@));
        Ok(m)
    }

    /// Serialize into a writer.
    pub fn encode(&self, w: &mut Writer)
        ensures
            final(w)@ == old(w)@ + enc_ledger(self@),
    {
        let ghost es = self@.entries;
        w.put_raw(&self.signer);
        w.put_raw(&self.root_hash);
        w.put_raw(&self.current_hash);
        w.put_u32(self.entries.len() as u32);
        let ghost start = w@;
        let mut i: usize = 0;
        while i < self.entries.len()
            invariant
                i <= self.entries@.len(),
                es == self@.entries,
                es.len() == self.entries@.len(),
                w@ == start + enc_entries(es.subrange(0, i as int)),
            decreases self.entries@.len() - i,
        {
            self.entries[i].encode(w);
            proof {
                let t = es.subrange(0, i as int + 1);
                assert(t.drop_last() =~= es.subrange(0, i as int));
                assert(t.last() == self.entries@[i as int]@);
                assert(w@ =~= start + enc_entries(t));
            }
            i = i + 1;
        }
        assert(es.subrange(0, es.len() as int) =~= es);
        assert(w@ =~= old(w)@ + enc_ledger(self@));
    }

    /// Deserialize from a reader.
    pub fn decode(r: &mut Reader) -> (res: Result<Self, AuraError>)
        ensures
            final(r).spec_data() == old(r).spec_data(),
            match sp_ledger(old(r).spec_data(), old(r).spec_pos()) {
                Ok((v, q)) => res matches Ok(l) && l@ == v && final(r).spec_pos() == q,
                Err((e, q)) => res == Err::<Self, AuraError>(e) && final(r).spec_pos() == q,
            },
    {
        let ghost p0 = r.spec_pos();
        let signer = r.array::<32>()?;
        let root_hash = r.array::<32>()?;
        let current_hash = r.array::<32>()?;
        let n = r.u32()?;
        let ghost d = r.spec_data();
        let ghost p4 = r.spec_pos();
        let ghost whole = sp_ledger(d, p0);
        let mut entries: Vec<LedgerEntry> = Vec::new();
        let mut i: u32 = 0;
        assert(entries@.map_values(|e: LedgerEntry| e@) =~= Seq::<EntryView>::empty());
        while i < n
            invariant
                i <= n,
                r.spec_data() == d,
                d == old(r).spec_data(),
                whole == sp_ledger(old(r).spec_data(), old(r).spec_pos()),
                whole == match sp_entries(d, p4, n as nat) {
                    Err(e) => Err(e),
                    Ok((es, p5)) => Ok(
                        (
                            LedgerView {
                                signer: signer@,
                                root_hash: root_hash@,
                                current_hash: current_hash@,
                                entries: es,
                            },
                            p5,
                        ),
                    ),
                },
                sp_entries(d, p4, i as nat) == Ok::<(Seq<EntryView>, int), (AuraError, int)>(
                    (entries@.map_values(|e: LedgerEntry| e@), r.spec_pos()),
                ),
            decreases n - i,
        {
            let ghost before = entries@;
            let e = match LedgerEntry::decode(r) {
                Ok(e) => e,
                Err(err) => {
                    proof {
                        lemma_sp_entries_err(d, p4, (i + 1) as nat, n as nat);
                    }
                    return Err(err);
                },
            };
            entries.push(e);
            proof {
                assert(entries@.map_values(|e: LedgerEntry| e@) =~= before.map_values(
                    |e: LedgerEntry| e@,
                ).push(e@));
            }
            i = i + 1;
        }
        let l = ProvenanceLedger { signer, root_hash, current_hash, entries };
        Ok(l)
    }
}

/// The entries with byte `j` of entry `i`'s resulting hash xor-ed with `x`.
pub open spec fn flip_entries(es: Seq<EntryView>, i: int, j: int, x: u8) -> Seq<EntryView> {
    let e = es[i];
    es.update(
        i,
        EntryView {
            op: e.op,
            software: e.software,
            prev_hash: e.prev_hash,
            resulting_hash: e.resulting_hash.update(j, e.resulting_hash[j] ^ x),
            signature: e.signature,
        },
    )
}

/// The ledger with byte `j` of entry `i`'s resulting hash xor-ed with `x`.
pub open spec fn flip_resulting(l: LedgerView, i: int, j: int, x: u8) -> LedgerView {
    LedgerView {
        signer: l.signer,
        root_hash: l.root_hash,
        current_hash: l.current_hash,
        entries: flip_entries(l.entries, i, j, x),
    }
}

proof fn lemma_flip_entries(signer: Seq<u8>, es: Seq<EntryView>, prev: Seq<u8>, i: int, j: int, x: u8)
    requires
        check_entries(signer, es, prev) is Ok,
        0 <= i < es.len(),
        0 <= j < es[i].resulting_hash.len(),
        x != 0,
    ensures
        check_entries(signer, flip_entries(es, i, j, x), prev) == Err::<(), LedgerFault>(
            LedgerFault::HashMismatch,
        ),
    decreases i,
{
    let f = flip_entries(es, i, j, x);
    if i == 0 {
        let b = es[0].resulting_hash[j];
        assert(b ^ x != b) by (bit_vector)
            requires
                x != 0,
        ;
        assert(f[0].resulting_hash[j] != es[0].resulting_hash[j]);
        assert(f[0].resulting_hash != es[0].resulting_hash);
    } else {
        assert(f[0] == es[0]);
        assert(f.drop_first() =~= flip_entries(es.drop_first(), i - 1, j, x));
        lemma_flip_entries(signer, es.drop_first(), es[0].resulting_hash, i - 1, j, x);
    }
}

/// Trust-seal law: in a ledger that verifies, flipping any bits of any
/// entry's resulting hash makes verification fail with the hash-mismatch
/// [`AuraError::TrustSealBroken`].
pub proof fn law_bit_flip_breaks_seal(l: LedgerView, i: int, j: int, x: u8)
    requires
        ledger_check(l) is Ok,
        0 <= i < l.entries.len(),
        0 <= j < l.entries[i].resulting_hash.len(),
        x != 0,
    ensures
        ledger_check(flip_resulting(l, i, j, x)) == Err::<(), LedgerFault>(LedgerFault::HashMismatch),
{
    lemma_flip_entries(l.signer, l.entries, l.root_hash, i, j, x);
}

/// The ledger with entry `i` replaced by `e`.
pub open spec fn replace_entry(l: LedgerView, i: int, e: EntryView) -> LedgerView {
    LedgerView {
        signer: l.signer,
        root_hash: l.root_hash,
        current_hash: l.current_hash,
        entries: l.entries.update(i, e),
    }
}

proof fn lemma_replace_entries(
    signer: Seq<u8>,
    es: Seq<EntryView>,
    prev: Seq<u8>,
    i: int,
    e: EntryView,
)
    requires
        check_entries(signer, es, prev) is Ok,
        0 <= i < es.len(),
        e.prev_hash != es[i].prev_hash || spec_sha3_256(
            entry_hash_input(e.prev_hash, e.op, e.software),
        ) != e.resulting_hash,
    ensures
        e.prev_hash != es[i].prev_hash ==> check_entries(signer, es.update(i, e), prev) == Err::<
            (),
            LedgerFault,
        >(LedgerFault::LinkBroken(e.prev_hash)),
        e.prev_hash == es[i].prev_hash ==> check_entries(signer, es.update(i, e), prev) == Err::<
            (),
            LedgerFault,
        >(LedgerFault::HashMismatch),
    decreases i,
{
    let f = es.update(i, e);
    if i > 0 {
        assert(f[0] == es[0]);
        assert(f.drop_first() =~= es.drop_first().update(i - 1, e));
        lemma_replace_entries(signer, es.drop_first(), es[0].resulting_hash, i - 1, e);
    }
}

/// Tamper-evidence law: in a ledger that verifies, replacing entry `i` by an
/// entry with another previous hash breaks the chain link there; replacing
/// it by one with the same previous hash whose operation, software or
/// resulting hash no longer hash to its resulting hash (a changed operation
/// or software, barring a SHA-3-256 collision) breaks the hash there.
/// [`ProvenanceLedger::verify`] reports either as a broken trust seal.
pub proof fn law_tampered_entry_breaks_seal(l: LedgerView, i: int, e: EntryView)
    requires
        ledger_check(l) is Ok,
        0 <= i < l.entries.len(),
        e.prev_hash != l.entries[i].prev_hash || spec_sha3_256(
            entry_hash_input(e.prev_hash, e.op, e.software),
        ) != e.resulting_hash,
    ensures
        e.prev_hash != l.entries[i].prev_hash ==> ledger_check(replace_entry(l, i, e)) == Err::<
            (),
            LedgerFault,
        >(LedgerFault::LinkBroken(e.prev_hash)),
        e.prev_hash == l.entries[i].prev_hash ==> ledger_check(replace_entry(l, i, e)) == Err::<
            (),
            LedgerFault,
        >(LedgerFault::HashMismatch),
{
    lemma_replace_entries(l.signer, l.entries, l.root_hash, i, e);
}

/// The empty ledger [`ProvenanceLedger::new`] makes for a key's secret and
/// a genesis hash.
pub open spec fn new_ledger(secret: Seq<u8>, genesis_hash: Seq<u8>) -> LedgerView {
    LedgerView {
        signer: spec_ed25519_public(secret),
        root_hash: genesis_hash,
        current_hash: genesis_hash,
        entries: Seq::empty(),
    }
}

/// `l` after appending each `(operation, software, secret)` of `ops` in turn.
pub open spec fn appended_all(l: LedgerView, ops: Seq<(OpType, Seq<char>, Seq<u8>)>) -> LedgerView
    decreases ops.len(),
{
    if ops.len() == 0 {
        l
    } else {
        let last = ops.last();
        appended(appended_all(l, ops.drop_last()), last.0, last.1, last.2)
    }
}

/// Anchor and chain law: a new ledger followed by any appends, with any
/// keys, keeps its genesis hash as root, holds one entry per append, and
/// stays a linked hash chain whose current hash is its head.
pub proof fn law_appends_keep_anchor_and_links(
    secret: Seq<u8>,
    genesis_hash: Seq<u8>,
    ops: Seq<(OpType, Seq<char>, Seq<u8>)>,
)
    ensures
        appended_all(new_ledger(secret, genesis_hash), ops).root_hash == genesis_hash,
        appended_all(new_ledger(secret, genesis_hash), ops).signer == spec_ed25519_public(secret),
        appended_all(new_ledger(secret, genesis_hash), ops).entries.len() == ops.len(),
        chain_linked(appended_all(new_ledger(secret, genesis_hash), ops)),
    decreases ops.len(),
{
    if ops.len() > 0 {
        law_appends_keep_anchor_and_links(secret, genesis_hash, ops.drop_last());
        let last = ops.last();
        law_append_keeps_links(
            appended_all(new_ledger(secret, genesis_hash), ops.drop_last()),
            last.0,
            last.1,
            last.2,
        );
    }
}

/// Verification law: a new ledger followed by any appends signed with the
/// ledger's own key verifies, given that the key's public half is a valid
/// key (which [`SigningKey::verifying_key`] shows of every key) and that an
/// ed25519 signature made with a key verifies under its public half (which
/// the signing wrapper shows of every signature it makes).
pub proof fn law_same_key_appends_verify(
    secret: Seq<u8>,
    genesis_hash: Seq<u8>,
    ops: Seq<(OpType, Seq<char>, Seq<u8>)>,
)
    requires
        spec_ed25519_key_valid(spec_ed25519_public(secret)),
        forall|m: Seq<u8>|
            spec_ed25519_verify(
                spec_ed25519_public(secret),
                m,
                #[trigger] spec_ed25519_sign(secret, m),
            ),
        forall|k: int| 0 <= k < ops.len() ==> (#[trigger] ops[k]).2 == secret,
    ensures
        ledger_check(appended_all(new_ledger(secret, genesis_hash), ops)) is Ok,
    decreases ops.len(),
{
    let l0 = new_ledger(secret, genesis_hash);
    if ops.len() == 0 {
        assert(check_entries(l0.signer, l0.entries, l0.root_hash) is Ok);
    } else {
        let init = ops.drop_last();
        assert forall|k: int| 0 <= k < init.len() implies (#[trigger] init[k]).2 == secret by {
            assert(init[k] == ops[k]);
        }
        law_same_key_appends_verify(secret, genesis_hash, init);
        law_appends_keep_anchor_and_links(secret, genesis_hash, init);
        let l = appended_all(l0, init);
        let last = ops.last();
        assert(last == ops[ops.len() - 1]);
        let input = entry_hash_input(l.current_hash, last.0, last.1);
        let res = spec_sha3_256(input);
        assert(spec_ed25519_verify(spec_ed25519_public(secret), input + res, spec_ed25519_sign(secret, input + res)));
        lemma_append_keeps_chain(l, last.0, last.1, secret);
    }
}

/// Every entry of a list that checks out, from `prev` on: it links to the
/// hash before it, its resulting hash is the SHA-3-256 of
/// `prev_hash || op tag || software`, and its signature verifies under
/// `signer` over that input followed by the resulting hash.
proof fn lemma_checked_entries(signer: Seq<u8>, es: Seq<EntryView>, prev: Seq<u8>)
    requires
        check_entries(signer, es, prev) is Ok,
    ensures
        es.len() > 0 ==> es[0].prev_hash == prev,
        forall|i: int| 0 < i < es.len() ==> #[trigger] es[i].prev_hash == es[i - 1].resulting_hash,
        forall|i: int|
            0 <= i < es.len() ==> #[trigger] es[i].resulting_hash == spec_sha3_256(
                es[i].prev_hash + seq![op_tag(es[i].op)] + encode_utf8(es[i].software),
            ),
        forall|i: int|
            0 <= i < es.len() ==> spec_ed25519_verify(
                signer,
                es[i].prev_hash + seq![op_tag(es[i].op)] + encode_utf8(es[i].software)
                    + es[i].resulting_hash,
                #[trigger] es[i].signature,
            ),
    decreases es.len(),
{
    if es.len() > 0 {
        let rest = es.drop_first();
        lemma_checked_entries(signer, rest, es[0].resulting_hash);
        assert forall|i: int| 0 < i < es.len() implies #[trigger] es[i].prev_hash
            == es[i - 1].resulting_hash by {
            assert(es[i] == rest[i - 1]);
            if i > 1 {
                assert(es[i - 1] == rest[i - 2]);
            }
        }
        assert forall|i: int| 0 <= i < es.len() implies #[trigger] es[i].resulting_hash
            == spec_sha3_256(es[i].prev_hash + seq![op_tag(es[i].op)] + encode_utf8(es[i].software)) by {
            if i > 0 {
                assert(es[i] == rest[i - 1]);
            }
        }
        assert forall|i: int|
            0 <= i < es.len() implies spec_ed25519_verify(
                signer,
                es[i].prev_hash + seq![op_tag(es[i].op)] + encode_utf8(es[i].software)
                    + es[i].resulting_hash,
                #[trigger] es[i].signature,
            ) by {
            if i > 0 {
                assert(es[i] == rest[i - 1]);
            }
        }
    }
}

/// Seal law: a ledger that verifies has a valid signer key, its first
/// entry links to the root hash and every later one to the resulting hash
/// before it, every entry's resulting hash is the SHA-3-256 of
/// `prev_hash || op tag || software`, and every entry's signature, whatever
/// its position, verifies under the signer over that input followed by the
/// resulting hash.
pub proof fn law_verified_ledger_is_sealed(l: LedgerView)
    requires
        ledger_check(l) is Ok,
    ensures
        spec_ed25519_key_valid(l.signer),
        l.entries.len() > 0 ==> l.entries[0].prev_hash == l.root_hash,
        forall|i: int|
            0 < i < l.entries.len() ==> #[trigger] l.entries[i].prev_hash == l.entries[i
                - 1].resulting_hash,
        forall|i: int|
            0 <= i < l.entries.len() ==> #[trigger] l.entries[i].resulting_hash == spec_sha3_256(
                l.entries[i].prev_hash + seq![op_tag(l.entries[i].op)] + encode_utf8(
                    l.entries[i].software,
                ),
            ),
        forall|i: int|
            0 <= i < l.entries.len() ==> spec_ed25519_verify(
                l.signer,
                l.entries[i].prev_hash + seq![op_tag(l.entries[i].op)] + encode_utf8(
                    l.entries[i].software,
                ) + l.entries[i].resulting_hash,
                #[trigger] l.entries[i].signature,
            ),
{
    lemma_checked_entries(l.signer, l.entries, l.root_hash);
}

proof fn lemma_bad_signature_entries(
    signer: Seq<u8>,
    es: Seq<EntryView>,
    prev: Seq<u8>,
    i: int,
    sig: Seq<u8>,
)
    requires
        check_entries(signer, es, prev) is Ok,
        0 <= i < es.len(),
        !spec_ed25519_verify(
            signer,
            es[i].prev_hash + seq![op_tag(es[i].op)] + encode_utf8(es[i].software)
                + es[i].resulting_hash,
            sig,
        ),
    ensures
        check_entries(
            signer,
            es.update(
                i,
                EntryView {
                    op: es[i].op,
                    software: es[i].software,
                    prev_hash: es[i].prev_hash,
                    resulting_hash: es[i].resulting_hash,
                    signature: sig,
                },
            ),
            prev,
        ) == Err::<(), LedgerFault>(LedgerFault::BadSignature),
    decreases i,
{
    let e = es[i];
    let e2 = EntryView {
        op: e.op,
        software: e.software,
        prev_hash: e.prev_hash,
        resulting_hash: e.resulting_hash,
        signature: sig,
    };
    let f = es.update(i, e2);
    if i > 0 {
        assert(f[0] == es[0]);
        assert(f.drop_first() =~= es.drop_first().update(i - 1, e2));
        lemma_bad_signature_entries(signer, es.drop_first(), es[0].resulting_hash, i - 1, sig);
    }
}

/// Signature law: in a ledger that verifies, giving any one entry, at any
/// position, a signature that does not verify under the signer over
/// `prev_hash || op tag || software || resulting_hash` makes verification
/// fail with the bad-signature fault ([`AuraError::SignatureInvalid`]).
pub proof fn law_bad_signature_breaks_seal(l: LedgerView, i: int, sig: Seq<u8>)
    requires
        ledger_check(l) is Ok,
        0 <= i < l.entries.len(),
        !spec_ed25519_verify(
            l.signer,
            l.entries[i].prev_hash + seq![op_tag(l.entries[i].op)] + encode_utf8(
                l.entries[i].software,
            ) + l.entries[i].resulting_hash,
            sig,
        ),
    ensures
        ledger_check(
            replace_entry(
                l,
                i,
                EntryView {
                    op: l.entries[i].op,
                    software: l.entries[i].software,
                    prev_hash: l.entries[i].prev_hash,
                    resulting_hash: l.entries[i].resulting_hash,
                    signature: sig,
                },
            ),
        ) == Err::<(), LedgerFault>(LedgerFault::BadSignature),
{
    lemma_bad_signature_entries(l.signer, l.entries, l.root_hash, i, sig);
}

/// Genesis message law: the signed message of a genesis block (32-byte data
/// hash, 16-byte device id) holds the data hash in bytes 0..32, the device
/// id in bytes 32..48 and the timestamp, little-endian, in bytes 48..56, so
/// two blocks that differ in any of the three fields are signed over
/// different messages.
pub proof fn law_genesis_msg_fields(
    h: Seq<u8>,
    d: Seq<u8>,
    t: u64,
    h2: Seq<u8>,
    d2: Seq<u8>,
    t2: u64,
)
    requires
        h.len() == 32,
        d.len() == 16,
        h2.len() == 32,
        d2.len() == 16,
    ensures
        genesis_msg(h, d, t).len() == 56,
        genesis_msg(h, d, t).subrange(0, 32) == h,
        genesis_msg(h, d, t).subrange(32, 48) == d,
        sp_u64(genesis_msg(h, d, t), 48) == Ok::<(u64, int), (AuraError, int)>((t, 56)),
        genesis_msg(h, d, t) == genesis_msg(h2, d2, t2) ==> h == h2 && d == d2 && t == t2,
{
    let m = genesis_msg(h, d, t);
    let m2 = genesis_msg(h2, d2, t2);
    assert(m.subrange(0, 32) =~= h);
    assert(m.subrange(32, 48) =~= d);
    assert(m.subrange(48, 56) =~= le_u64(t));
    lemma_sp_u64(m, 48, t);
    assert(m2.subrange(0, 32) =~= h2);
    assert(m2.subrange(32, 48) =~= d2);
    assert(m2.subrange(48, 56) =~= le_u64(t2));
    lemma_sp_u64(m2, 48, t2);
}

proof fn lemma_hex_len(b: Seq<u8>)
    ensures
        hex_chars(b).len() == 2 * b.len(),
    decreases b.len(),
{
    if b.len() > 0 {
        lemma_hex_len(b.drop_last());
    }
}

/// Manifest law: the manifest ends with the `aura.genesis` value, the
/// hexadecimal root (genesis) hash of the ledger, and its closing text; it
/// does not move when entries are appended, so a ledger made from a genesis
/// hash keeps that hash there.
pub proof fn law_manifest_binds_genesis(l: LedgerView, op: OpType, software: Seq<char>, secret: Seq<u8>)
    requires
        l.root_hash.len() == 32,
    ensures
        ({
            let m = c2pa_manifest(l);
            m.subrange(m.len() - 67, m.len() as int) == hex_chars(l.root_hash) + "\"}}"@
        }),
        ({
            let m = c2pa_manifest(l);
            let m2 = c2pa_manifest(appended(l, op, software, secret));
            m2.subrange(m2.len() - 67, m2.len() as int) == m.subrange(m.len() - 67, m.len() as int)
        }),
        ({
            let m = c2pa_manifest(new_ledger(secret, l.root_hash));
            m.subrange(m.len() - 67, m.len() as int) == hex_chars(l.root_hash) + "\"}}"@
        }),
{
    reveal_strlit("\"}}");
    lemma_hex_len(l.root_hash);
    let tail = hex_chars(l.root_hash) + "\"}}"@;
    assert(tail.len() == 67);
    let m = c2pa_manifest(l);
    assert(m.subrange(m.len() - 67, m.len() as int) =~= tail);
    let l2 = appended(l, op, software, secret);
    let m2 = c2pa_manifest(l2);
    assert(m2.subrange(m2.len() - 67, m2.len() as int) =~= tail);
    let m3 = c2pa_manifest(new_ledger(secret, l.root_hash));
    assert(m3.subrange(m3.len() - 67, m3.len() as int) =~= tail);
}

proof fn lemma_entries_check_ok(signer: Seq<u8>, es: Seq<EntryView>, prev: Seq<u8>)
    requires
        es.len() > 0 ==> es[0].prev_hash == prev,
        forall|i: int| 0 < i < es.len() ==> #[trigger] es[i].prev_hash == es[i - 1].resulting_hash,
        forall|i: int|
            0 <= i < es.len() ==> #[trigger] es[i].resulting_hash == spec_sha3_256(
                es[i].prev_hash + seq![op_tag(es[i].op)] + encode_utf8(es[i].software),
            ),
        forall|i: int|
            0 <= i < es.len() ==> spec_ed25519_verify(
                signer,
                es[i].prev_hash + seq![op_tag(es[i].op)] + encode_utf8(es[i].software)
                    + es[i].resulting_hash,
                #[trigger] es[i].signature,
            ),
    ensures
        check_entries(signer, es, prev) is Ok,
    decreases es.len(),
{
    if es.len() > 0 {
        let rest = es.drop_first();
        assert(es[0].resulting_hash == spec_sha3_256(
            es[0].prev_hash + seq![op_tag(es[0].op)] + encode_utf8(es[0].software),
        ));
        assert(spec_ed25519_verify(
            signer,
            es[0].prev_hash + seq![op_tag(es[0].op)] + encode_utf8(es[0].software)
                + es[0].resulting_hash,
            es[0].signature,
        ));
        assert forall|i: int| 0 < i < rest.len() implies #[trigger] rest[i].prev_hash
            == rest[i - 1].resulting_hash by {
            assert(rest[i] == es[i + 1] && rest[i - 1] == es[i]);
        }
        assert forall|i: int| 0 <= i < rest.len() implies #[trigger] rest[i].resulting_hash
            == spec_sha3_256(
            rest[i].prev_hash + seq![op_tag(rest[i].op)] + encode_utf8(rest[i].software),
        ) by {
            assert(rest[i] == es[i + 1]);
        }
        assert forall|i: int|
            0 <= i < rest.len() implies spec_ed25519_verify(
                signer,
                rest[i].prev_hash + seq![op_tag(rest[i].op)] + encode_utf8(rest[i].software)
                    + rest[i].resulting_hash,
                #[trigger] rest[i].signature,
            ) by {
            assert(rest[i] == es[i + 1]);
        }
        if rest.len() > 0 {
            assert(rest[0] == es[1]);
        }
        lemma_entries_check_ok(signer, rest, es[0].resulting_hash);
    }
}

/// Converse of the seal law: a ledger whose signer key is valid, whose
/// entries link from the root hash one to the next, whose resulting hashes
/// are the SHA-3-256 of `prev_hash || op tag || software`, and whose
/// signatures all verify under the signer over that input followed by the
/// resulting hash, verifies.
pub proof fn law_sealed_ledger_verifies(l: LedgerView)
    requires
        spec_ed25519_key_valid(l.signer),
        l.entries.len() > 0 ==> l.entries[0].prev_hash == l.root_hash,
        forall|i: int|
            0 < i < l.entries.len() ==> #[trigger] l.entries[i].prev_hash == l.entries[i
                - 1].resulting_hash,
        forall|i: int|
            0 <= i < l.entries.len() ==> #[trigger] l.entries[i].resulting_hash == spec_sha3_256(
                l.entries[i].prev_hash + seq![op_tag(l.entries[i].op)] + encode_utf8(
                    l.entries[i].software,
                ),
            ),
        forall|i: int|
            0 <= i < l.entries.len() ==> spec_ed25519_verify(
                l.signer,
                l.entries[i].prev_hash + seq![op_tag(l.entries[i].op)] + encode_utf8(
                    l.entries[i].software,
                ) + l.entries[i].resulting_hash,
                #[trigger] l.entries[i].signature,
            ),
    ensures
        ledger_check(l) is Ok,
{
    lemma_entries_check_ok(l.signer, l.entries, l.root_hash);
}

/// Genesis verification law: a genesis block verifies under a public key
/// exactly when its signature is 64 bytes and verifies under that key over
/// `data_hash || device_id || timestamp` (the timestamp little-endian).
pub proof fn law_genesis_verifies_iff_signed(g: GenesisView, public: Seq<u8>)
    ensures
        genesis_check(g, public) is Ok <==> g.hardware_sig.len() == 64 && spec_ed25519_verify(
            public,
            g.data_hash + g.device_id + le_u64(g.timestamp),
            g.hardware_sig,
        ),
{
}

} // verus!
