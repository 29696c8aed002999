use tpt_aura::bootstrap::{Bootstrap, AURA_BOOTSTRAP_WASM};
use tpt_aura::codec::{Reader, Writer};

#[test]
fn embedded_wasm_is_valid() {
    let b = Bootstrap::with_default_wasm();
    assert!(b.validate());
}

#[test]
fn write_read_round_trip() {
    let b = Bootstrap::with_default_wasm();
    let mut w = Writer::new();
    b.write(&mut w);
    let bytes = w.into_inner();
    let mut r = Reader::new(&bytes);
    let back = Bootstrap::read(&mut r).unwrap();
    assert_eq!(back, b);
    assert_eq!(back.bytes, AURA_BOOTSTRAP_WASM);
}

#[test]
fn tampered_bootstrap_fails_validation() {
    let mut b = Bootstrap::with_default_wasm();
    b.bytes[0] = 0xFF;
    assert!(!b.validate());
}

#[test]
fn short_or_wrong_version_bootstrap_fails_validation() {
    let short = Bootstrap { bytes: vec![0x00, 0x61, 0x73, 0x6d, 0x01, 0x00, 0x00] };
    assert!(!short.validate());
    let v2 = Bootstrap { bytes: vec![0x00, 0x61, 0x73, 0x6d, 0x02, 0x00, 0x00, 0x00] };
    assert!(!v2.validate());
    let minimal = Bootstrap { bytes: vec![0x00, 0x61, 0x73, 0x6d, 0x01, 0x00, 0x00, 0x00] };
    assert!(minimal.validate());
}
