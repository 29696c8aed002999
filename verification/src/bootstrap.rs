//! The WASM bootstrap: a self-describing decoder key embedded in the file header.
//!
//! The first section of an AURA file is a compiled WebAssembly binary
//! containing the exact math required to decode the rest of the file. If the
//! AURA standard ever disappears, a runtime can compile this blob on the fly
//! and still read the container.
//!
//! The bytes below are a *valid, minimal* WASM module (exports an `add`
//! function) used as a placeholder decoder key.
//!
//! Equivalent WAT:
//! ```wat
//! (module
//!   (func (export "add") (param $a i32) (param $b i32) (result i32)
//!     local.get 0
//!     local.get 1
//!     i32.add))
//! ```
use crate::codec::{enc_bytes, has_at, lemma_sp_bytes, sp_bytes, Reader, Writer};
use crate::error::AuraError;
use vstd::prelude::*;

verus! {

/// Magic bytes of any WASM binary: `"\0asm"`.
pub const WASM_MAGIC: [u8; 4] = [0x00, 0x61, 0x73, 0x6d];

/// WASM binary format version (1).
pub const WASM_VERSION: [u8; 4] = [0x01, 0x00, 0x00, 0x00];

/// A minimal but valid WASM decoder-key module embedded in the crate.
pub const AURA_BOOTSTRAP_WASM: [u8; 41] = [
    0x00, 0x61, 0x73, 0x6d, // magic "\0asm"
    0x01, 0x00, 0x00, 0x00, // version 1
    0x01, 0x07, 0x01, 0x60, 0x02, 0x7f, 0x7f, 0x01, 0x7f, // type section
    0x03, 0x02, 0x01, 0x00, // function section
    0x07, 0x07, 0x01, 0x03, 0x61, 0x64, 0x64, 0x00, 0x00, // export "add"
    0x0a, 0x09, 0x01, 0x07, 0x00, 0x20, 0x00, 0x20, 0x01, 0x6a, 0x0b, // code
];

/// A byte string starts with the WASM magic and version 1.
pub open spec fn is_wasm_prefixed(b: Seq<u8>) -> bool {
    &&& b.len() >= 8
    &&& b.subrange(0, 4) == WASM_MAGIC@
    &&& b.subrange(4, 8) == WASM_VERSION@
}

/// The embedded WASM bootstrap blob.
#[derive(Debug, Clone, PartialEq, Eq)]
pub struct Bootstrap {
    /// Raw WASM bytes.
    pub bytes: Vec<u8>,
}

impl Bootstrap {
    /// A bootstrap carrying the default embedded decoder key.
    pub fn with_default_wasm() -> (b: Self)
        ensures
            b.bytes@ == AURA_BOOTSTRAP_WASM@,
    {
        Bootstrap { bytes: vstd::slice::slice_to_vec(vstd::array::array_as_slice(&AURA_BOOTSTRAP_WASM)) }
    }

    /// Check the WASM magic + version prefix.
    pub fn validate(&self) -> (ok: bool)
        ensures
            ok == is_wasm_prefixed(self.bytes@),
    {
        if self.bytes.len() < 8 {
            return false;
        }
        let mut i: usize = 0;
        while i < 4
            invariant
                i <= 4,
                self.bytes@.len() >= 8,
                forall|k: int| 0 <= k < i ==> self.bytes@[k] == WASM_MAGIC@[k],
                forall|k: int| 0 <= k < i ==> self.bytes@[k + 4] == WASM_VERSION@[k],
            decreases 4 - i,
        {
            if self.bytes[i] != WASM_MAGIC[i] || self.bytes[i + 4] != WASM_VERSION[i] {
                proof {
                    if self.bytes[i as int] != WASM_MAGIC@[i as int] {
                        assert(self.bytes@.subrange(0, 4)[i as int] == self.bytes@[i as int]);
                    } else {
                        assert(self.bytes@.subrange(4, 8)[i as int] == self.bytes@[i + 4]);
                    }
                }
                return false;
            }
            i = i + 1;
        }
        assert(self.bytes@.subrange(0, 4) =~= WASM_MAGIC@);
        assert(self.bytes@.subrange(4, 8) =~= WASM_VERSION@);
        true
    }

    /// Write the bootstrap into a section writer.
    pub fn write(&self, w: &mut Writer)
        ensures
            final(w)@ == old(w)@ + enc_bytes(self.bytes@),
    {
        w.put_bytes(self.bytes.as_slice());
    }

    /// Read a bootstrap from a section reader.
    pub fn read(r: &mut Reader) -> (res: Result<Self, AuraError>)
        ensures
            final(r).spec_data() == old(r).spec_data(),
            match sp_bytes(old(r).spec_data(), old(r).spec_pos()) {
                Ok((b, q)) => res matches Ok(v) && v.bytes@ == b && final(r).spec_pos() == q,
                Err((e, q)) => res == Err::<Self, AuraError>(e) && final(r).spec_pos() == q,
            },
    {
        let bytes = r.bytes()?;
        Ok(Bootstrap { bytes })
    }
}

/// Reading back what [`Bootstrap::write`] wrote gives the same bytes.
pub proof fn law_bootstrap_round_trip(d: Seq<u8>, p: int, b: Seq<u8>)
    requires
        b.len() <= u32::MAX,
        0 <= p,
        has_at(d, p, enc_bytes(b)),
    ensures
        sp_bytes(d, p) == Ok::<(Seq<u8>, int), (AuraError, int)>((b, p + enc_bytes(b).len())),
{
    lemma_sp_bytes(d, p, b);
}


/// The embedded decoder key starts with the WASM magic and version 1, so a
/// bootstrap made by [`Bootstrap::with_default_wasm`] validates.
pub proof fn law_default_wasm_is_valid()
    ensures
        is_wasm_prefixed(AURA_BOOTSTRAP_WASM@),
{
    assert(AURA_BOOTSTRAP_WASM@.subrange(0, 4) =~= WASM_MAGIC@);
    assert(AURA_BOOTSTRAP_WASM@.subrange(4, 8) =~= WASM_VERSION@);
}

} // verus!
