//! # tpt-aura
//!
//! Core library for the **AURA (Adaptive Universal Record Architecture)**
//! master media format: a polymorphic, semantically-aware, cryptographically
//! sealed container.
//!
//! ## Modules
//!
//! * [`container`] — the typed record container, header, and footer.
//! * [`provenance`] — genesis block + append-only signed provenance ledger.
//! * [`bootstrap`] — the embedded WASM decoder-key bootstrap.
//! * [`semantic`] — the Semantic DAG (concept nodes, edges, bitmask RLE).
//! * [`neural`] — adaptive Tier-0 / Tier-1 neural encoding.
//! * [`diff`] — structural diffing of two AURA files.
//! * [`detector`] — concept detectors that populate the Semantic DAG.
//! * [`codec`] — little-endian byte writer/reader and CRC-32.
//! * [`crypto`] — SHA-3-256 and ed25519.
//! * [`text`] — hexadecimal text.

pub mod bootstrap;
pub mod codec;
pub mod container;
pub mod crypto;
pub mod detector;
pub mod diff;
pub mod error;
pub mod neural;
pub mod provenance;
pub mod semantic;
pub mod text;

pub use error::AuraError;
pub use neural::RgbImage;
