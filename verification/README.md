# tpt-aura

AURA is a self-verifying media container. A file holds a WASM bootstrap,
a signed genesis block, a scene of typed records (luminance/chroma, depth,
audio, temporal), a semantic concept graph, and an append-only signed
provenance ledger, followed by a footer with a CRC-32 and a SHA-3-256 of
everything before it.

The library is written in Verus: every function in `src/` carries a
contract, and the laws of the format are proof functions checked by the
verifier.

## Layout

- `src/codec.rs` – little-endian writer and reader, CRC-32.
- `src/crypto.rs` – SHA-3-256 and ed25519, the only trusted calls.
- `src/text.rs` – hexadecimal and JSON string text.
- `src/provenance.rs` – genesis block, ledger, verification, C2PA manifest.
- `src/semantic.rs` – concept graph, run-length bitmasks, Kahn's sort.
- `src/bootstrap.rs` – the WASM bootstrap section.
- `src/neural.rs` – RGB images, the Tier-0 base layer, upscaling.
- `src/container.rs` – records, building, opening and creating files.
- `src/diff.rs` – structural diff of two files.
- `src/detector.rs` – concept detectors.
- `app/` – the `aura` command line: file, image, key and network I/O.
- `tests/` – tests of the library.
