use tpt_aura::codec::{Reader, Writer};
use tpt_aura::crypto::sha3_256;
use tpt_aura::error::AuraError;
use tpt_aura::provenance::{GenesisBlock, OpType, ProvenanceLedger, SigningKey};

fn keypair() -> SigningKey {
    // Deterministic test key (DO NOT use in production).
    SigningKey::from_bytes(&[7u8; 32])
}

#[test]
fn genesis_sign_verify() {
    let k = keypair();
    let gh = sha3_256(b"raw-sensor-bytes");
    let g = GenesisBlock::sign(&k, gh, [9u8; 16], 1_700_000_000_000);
    g.verify(&k.verifying_key()).unwrap();
}

#[test]
fn ledger_append_verify() {
    let k = keypair();
    let gh = sha3_256(b"raw-sensor-bytes");
    let mut ledger = ProvenanceLedger::new(&k, gh);
    ledger.append(OpType::Capture, "aura-capture/0.1", &k).unwrap();
    ledger.append(OpType::ColorGrade, "aura-studio/0.1", &k).unwrap();
    ledger.append(OpType::SemanticEdit, "aura-seg/0.1", &k).unwrap();
    assert_eq!(ledger.len(), 3);
    ledger.verify().unwrap();
}

#[test]
fn ledger_tamper_detected() {
    let k = keypair();
    let gh = sha3_256(b"raw-sensor-bytes");
    let mut ledger = ProvenanceLedger::new(&k, gh);
    ledger.append(OpType::Capture, "aura-capture/0.1", &k).unwrap();
    ledger.append(OpType::ColorGrade, "aura-studio/0.1", &k).unwrap();
    // Bit-flip the resulting hash of the last entry -> trust seal must break.
    ledger.entries[1].resulting_hash[0] ^= 0xFF;
    assert!(matches!(ledger.verify(), Err(AuraError::TrustSealBroken(_))));
}

#[test]
fn ledger_wrong_key_fails() {
    let k = keypair();
    let other = SigningKey::from_bytes(&[3u8; 32]);
    let gh = sha3_256(b"raw-sensor-bytes");
    let mut ledger = ProvenanceLedger::new(&k, gh);
    // Append with a different key than the one the ledger trusts.
    ledger.append(OpType::Capture, "aura-capture/0.1", &other).unwrap();
    assert!(matches!(ledger.verify(), Err(AuraError::SignatureInvalid)));
}

#[test]
fn ledger_round_trip() {
    let k = keypair();
    let gh = sha3_256(b"raw-sensor-bytes");
    let mut ledger = ProvenanceLedger::new(&k, gh);
    ledger.append(OpType::Capture, "aura-capture/0.1", &k).unwrap();
    let mut w = Writer::new();
    ledger.encode(&mut w);
    let bytes = w.into_inner();
    let mut r = Reader::new(&bytes);
    let back = ProvenanceLedger::decode(&mut r).unwrap();
    assert_eq!(back.entries, ledger.entries);
    back.verify().unwrap();
}

#[test]
fn c2pa_manifest_is_json() {
    let k = keypair();
    let gh = sha3_256(b"raw");
    let mut ledger = ProvenanceLedger::new(&k, gh);
    ledger.append(OpType::Capture, "aura/0.1", &k).unwrap();
    let m = ledger.to_c2pa_manifest().unwrap();
    assert!(m.starts_with('{') && m.contains("c2pa.actions"));
}

#[test]
fn sha3_of_empty_input() {
    let h = sha3_256(b"");
    assert_eq!(
        tpt_aura::text::hex(&h),
        "a7ffc6f8bf1ed76651c14756a061d662f580ff4de43b49fa82d80a4b80f8434a"
    );
}

#[test]
fn genesis_wrong_key_or_tampered_fails() {
    let k = keypair();
    let other = SigningKey::from_bytes(&[3u8; 32]);
    let gh = sha3_256(b"raw-sensor-bytes");
    let g = GenesisBlock::sign(&k, gh, [9u8; 16], 5);
    assert_eq!(g.verify(&other.verifying_key()), Err(AuraError::SignatureInvalid));
    let mut t = g.clone();
    t.timestamp = 6;
    assert_eq!(t.verify(&k.verifying_key()), Err(AuraError::SignatureInvalid));
    let mut short = g.clone();
    short.hardware_sig.pop();
    assert_eq!(short.verify(&k.verifying_key()), Err(AuraError::InvalidLength));
}

#[test]
fn genesis_round_trip() {
    let k = keypair();
    let g = GenesisBlock::sign(&k, sha3_256(b"x"), [1u8; 16], 42);
    let mut w = Writer::new();
    g.encode(&mut w);
    let bytes = w.into_inner();
    let back = GenesisBlock::decode(&mut Reader::new(&bytes)).unwrap();
    assert_eq!(back, g);
}

#[test]
fn new_ledger_is_empty_and_verifies() {
    let k = keypair();
    let gh = sha3_256(b"raw");
    let ledger = ProvenanceLedger::new(&k, gh);
    assert!(ledger.is_empty());
    assert_eq!(ledger.len(), 0);
    assert_eq!(ledger.root_hash(), gh);
    assert_eq!(ledger.current_hash(), gh);
    assert_eq!(ledger.signer_key().unwrap(), k.verifying_key());
    ledger.verify().unwrap();
}

#[test]
fn append_moves_the_chain_head() {
    let k = keypair();
    let gh = sha3_256(b"raw");
    let mut ledger = ProvenanceLedger::new(&k, gh);
    ledger.append(OpType::Crop, "tool", &k).unwrap();
    assert_eq!(ledger.entries[0].prev_hash, gh);
    assert_eq!(ledger.current_hash(), ledger.entries[0].resulting_hash);
    assert_ne!(ledger.current_hash(), gh);
}

#[test]
fn broken_link_is_reported() {
    let k = keypair();
    let gh = sha3_256(b"raw");
    let mut ledger = ProvenanceLedger::new(&k, gh);
    ledger.append(OpType::Capture, "a", &k).unwrap();
    ledger.entries[0].prev_hash[0] ^= 1;
    match ledger.verify() {
        Err(AuraError::TrustSealBroken(m)) => {
            assert!(m.starts_with("prev-hash link broken at entry "))
        }
        other => panic!("unexpected {other:?}"),
    }
}

#[test]
fn op_type_tags_round_trip() {
    for op in [
        OpType::Capture,
        OpType::SemanticEdit,
        OpType::ColorGrade,
        OpType::Crop,
        OpType::Compile,
        OpType::Other,
    ] {
        assert_eq!(OpType::from_u8(op.to_u8()), op);
    }
    assert_eq!(OpType::from_u8(200), OpType::Other);
    assert_eq!(OpType::Compile.to_u8(), 4);
}

#[test]
fn c2pa_manifest_escapes_software_agent() {
    let k = keypair();
    let gh = sha3_256(b"raw");
    let mut ledger = ProvenanceLedger::new(&k, gh);
    let tricky = "a\\b \"q\"\nline\t\u{1}end";
    ledger.append(OpType::ColorGrade, tricky, &k).unwrap();
    ledger.append(OpType::Crop, "plain", &k).unwrap();
    let m = ledger.to_c2pa_manifest().unwrap();
    let v: serde_json::Value = serde_json::from_str(&m).unwrap();
    let actions = v["assertions"]["c2pa.actions"].as_array().unwrap();
    assert_eq!(actions.len(), 2);
    // Double quotes become single quotes; everything else survives as is.
    assert_eq!(actions[0]["softwareAgent"], "a\\b 'q'\nline\t\u{1}end");
    assert_eq!(actions[0]["action"], "colorgrade");
    assert_eq!(actions[1]["softwareAgent"], "plain");
}

fn two_entry_ledger() -> (SigningKey, ProvenanceLedger) {
    let k = keypair();
    let mut ledger = ProvenanceLedger::new(&k, sha3_256(b"raw"));
    ledger.append(OpType::Capture, "cam", &k).unwrap();
    ledger.append(OpType::Crop, "editor", &k).unwrap();
    (k, ledger)
}

#[test]
fn tampering_any_entry_field_breaks_the_seal() {
    let (_, base) = two_entry_ledger();
    base.verify().unwrap();

    let mut l = base.clone();
    l.entries[1].prev_hash[3] ^= 1;
    assert!(matches!(l.verify(), Err(AuraError::TrustSealBroken(_))));

    let mut l = base.clone();
    l.entries[1].op = OpType::Compile;
    assert!(matches!(l.verify(), Err(AuraError::TrustSealBroken(_))));

    let mut l = base.clone();
    l.entries[0].software = "forged".to_string();
    assert!(matches!(l.verify(), Err(AuraError::TrustSealBroken(_))));

    let mut l = base.clone();
    l.entries[0].resulting_hash[0] ^= 0x80;
    assert!(matches!(l.verify(), Err(AuraError::TrustSealBroken(_))));
}

#[test]
fn appended_ledger_is_hash_linked() {
    let (_, l) = two_entry_ledger();
    assert_eq!(l.entries[0].prev_hash, l.root_hash());
    assert_eq!(l.entries[1].prev_hash, l.entries[0].resulting_hash);
    assert_eq!(l.current_hash(), l.entries[1].resulting_hash);
}

#[test]
fn genesis_prefixes_are_eof() {
    let g = GenesisBlock::sign(&keypair(), sha3_256(b"img"), [2u8; 16], 99);
    let mut w = Writer::new();
    g.encode(&mut w);
    let bytes = w.into_inner();
    assert_eq!(bytes.len(), 124);
    for m in 0..bytes.len() {
        let mut r = Reader::new(&bytes[..m]);
        assert_eq!(GenesisBlock::decode(&mut r), Err(AuraError::UnexpectedEof));
    }
    let mut r = Reader::new(&bytes);
    assert_eq!(GenesisBlock::decode(&mut r), Ok(g));
    assert_eq!(r.remaining(), 0);
}
