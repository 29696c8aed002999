use tpt_aura::bootstrap::Bootstrap;
use tpt_aura::container::{
    create_file, open, AuraBuilder, AuraFile, LuminanceChromaRecord, Record, SceneChild, SceneRecord,
    SpatialAudioRecord, SpatialDepthRecord, TemporalRecord, AURA_MAGIC, FOOTER_SIZE,
    REC_LUMINANCE_CHROMA, VERSION_MAJOR, VERSION_MINOR,
};
use tpt_aura::crypto::sha3_256;
use tpt_aura::error::AuraError;
use tpt_aura::neural::{encode_tier0, RgbImage};
use tpt_aura::provenance::{GenesisBlock, OpType, ProvenanceLedger, SigningKey};
use tpt_aura::semantic::SemanticDAG;

fn key() -> SigningKey {
    SigningKey::from_bytes(&[7u8; 32])
}

fn sample_scene() -> SceneRecord {
    let mut img = RgbImage::new(8, 8);
    for y in 0..8u32 {
        for x in 0..8u32 {
            img.set_pixel(x, y, (x as u8, y as u8, 0));
        }
    }
    let base = encode_tier0(&img, 2);
    let rec = LuminanceChromaRecord {
        width: base.base_width(),
        height: base.base_height(),
        depth: 8,
        sampling: 1,
        data: base.data().to_vec(),
    };
    let mut scene = SceneRecord::new();
    scene.push(SceneChild::LuminanceChroma(rec));
    scene
}

fn build_file() -> Vec<u8> {
    let k = key();
    let data_hash = sha3_256(b"sensor");
    let genesis = GenesisBlock::sign(&k, data_hash, [1u8; 16], 1_700_000_000_000);
    let ledger = ProvenanceLedger::new(&k, data_hash);
    let scene = sample_scene();
    let dag = SemanticDAG::new();
    let bootstrap = Bootstrap::with_default_wasm();
    let builder = AuraBuilder::new(bootstrap, genesis, scene, dag, ledger);
    builder.build().unwrap()
}

#[test]
fn write_then_read_round_trip() {
    let bytes = build_file();
    let file = open(&bytes).unwrap();
    assert_eq!(file.header.version_major, VERSION_MAJOR);
    assert!(file.bootstrap.validate());
    assert_eq!(file.scene.children.len(), 1);
    assert!(file.ledger.is_empty());
    assert!(file.dag.nodes.is_empty());
}

#[test]
fn footer_crc_and_hash_validate() {
    let bytes = build_file();
    open(&bytes).unwrap(); // open() validates the footer itself
}

#[test]
fn tampering_breaks_integrity() {
    let mut bytes = build_file();
    // Flip a byte in the records section body.
    bytes[120] ^= 0xFF;
    assert!(matches!(
        open(&bytes),
        Err(AuraError::ChecksumMismatch { .. }) | Err(AuraError::HashMismatch)
    ));
}

#[test]
fn trust_chain_verifies_on_opened_file() {
    let bytes = build_file();
    let file = open(&bytes).unwrap();
    file.verify().unwrap();
}

#[test]
fn downcast_child_record() {
    let bytes = build_file();
    let file = open(&bytes).unwrap();
    let rec = file.scene.children[0].as_luminance_chroma().unwrap();
    assert_eq!(rec.width, 4);
    assert_eq!(rec.height, 4);
}

#[test]
fn signed_ledger_survives_round_trip() {
    let k = key();
    let data_hash = sha3_256(b"sensor");
    let genesis = GenesisBlock::sign(&k, data_hash, [1u8; 16], 0);
    let mut ledger = ProvenanceLedger::new(&k, data_hash);
    ledger.append(OpType::Capture, "aura/0.1", &k).unwrap();
    let scene = sample_scene();
    let builder = AuraBuilder::new(
        Bootstrap::with_default_wasm(),
        genesis,
        scene,
        SemanticDAG::new(),
        ledger,
    );
    let bytes = builder.build().unwrap();
    let file = open(&bytes).unwrap();
    assert_eq!(file.ledger.len(), 1);
    file.verify().unwrap();
}

#[test]
fn truncated_section_table_errors_instead_of_panicking() {
    // Valid magic/version, but `count` (5) declares far more section
    // entries than the buffer actually has room for.
    let mut bytes = vec![0u8; 10 + FOOTER_SIZE];
    bytes[0..4].copy_from_slice(&AURA_MAGIC);
    bytes[4..6].copy_from_slice(&VERSION_MAJOR.to_le_bytes());
    bytes[6..8].copy_from_slice(&VERSION_MINOR.to_le_bytes());
    bytes[8..10].copy_from_slice(&5u16.to_le_bytes());
    assert!(matches!(open(&bytes), Err(AuraError::UnexpectedEof)));
}

fn every_record_scene() -> SceneRecord {
    let mut scene = sample_scene();
    scene.push(SceneChild::SpatialDepth(SpatialDepthRecord {
        width: 2,
        height: 1,
        intrinsics_bits: [1.0f32.to_bits(), 2.0f32.to_bits(), 0.5f32.to_bits(), 0.25f32.to_bits()],
        depth: vec![100, 65535],
    }));
    scene.push(SceneChild::SpatialAudio(SpatialAudioRecord {
        channels: 4,
        sample_rate: 48_000,
        frames: 2,
        data: vec![9, 8, 7],
    }));
    scene.push(SceneChild::Temporal(TemporalRecord {
        frame_count: 30,
        fps_bits: 29.97f32.to_bits(),
        motion_vectors: vec![(-1, 2), (i16::MIN, i16::MAX)],
    }));
    scene
}

#[test]
fn every_record_kind_round_trips() {
    let k = key();
    let h = sha3_256(b"s");
    let scene = every_record_scene();
    let expected = scene.clone();
    let builder = AuraBuilder::new(
        Bootstrap::with_default_wasm(),
        GenesisBlock::sign(&k, h, [2u8; 16], 9),
        scene,
        SemanticDAG::new(),
        ProvenanceLedger::new(&k, h),
    );
    let bytes = builder.build().unwrap();
    let file = open(&bytes).unwrap();
    assert_eq!(file.scene, expected);
    let tags: Vec<u8> = file.scene.children.iter().map(|c| c.type_tag()).collect();
    assert_eq!(tags, vec![REC_LUMINANCE_CHROMA, 0x11, 0x12, 0x13]);
    assert_eq!(file.genesis, builder.genesis);
    assert_eq!(file.bootstrap, builder.bootstrap);
    assert_eq!(file.header.sections.len(), 5);
    assert_eq!(file.header.sections[0].offset, 95);
    assert!(file.scene.children[1].as_luminance_chroma().is_none());
}

#[test]
fn open_error_cases() {
    let good = build_file();
    assert!(matches!(open(&good[..40]), Err(AuraError::UnexpectedEof)));
    let mut bad_magic = good.clone();
    bad_magic[0] = b'X';
    assert_eq!(
        open(&bad_magic).unwrap_err(),
        AuraError::BadMagic { expected: AURA_MAGIC, found: *b"XURA" }
    );
    let mut v2 = good.clone();
    v2[4] = 2;
    assert_eq!(open(&v2).unwrap_err(), AuraError::UnsupportedVersion(2, 0));
    let mut crc = good.clone();
    let n = crc.len();
    crc[n - 36] ^= 1;
    assert!(matches!(open(&crc), Err(AuraError::ChecksumMismatch { .. })));
    let mut hash = good.clone();
    hash[n - 1] ^= 1;
    assert_eq!(open(&hash).unwrap_err(), AuraError::HashMismatch);
}

#[test]
fn unknown_record_tag_is_refused() {
    let mut scene = SceneRecord::new();
    scene.push(SceneChild::SpatialAudio(SpatialAudioRecord {
        channels: 1,
        sample_rate: 1,
        frames: 1,
        data: vec![],
    }));
    let k = key();
    let h = sha3_256(b"s");
    let builder = AuraBuilder::new(
        Bootstrap::with_default_wasm(),
        GenesisBlock::sign(&k, h, [2u8; 16], 9),
        scene,
        SemanticDAG::new(),
        ProvenanceLedger::new(&k, h),
    );
    let mut bytes = builder.build().unwrap();
    // The records section starts with the child count, then the first tag.
    let rec_off = 95 + 4 + builder.bootstrap.bytes.len() + (32 + 16 + 8 + 4 + 64);
    assert_eq!(bytes[rec_off + 4], 0x12);
    bytes[rec_off + 4] = 0x14;
    // Re-seal the footer so that only the record tag is wrong.
    let n = bytes.len();
    let body = bytes[..n - 36].to_vec();
    let crc = tpt_aura::codec::crc32(&body);
    let h2 = sha3_256(&body);
    bytes[n - 36..n - 32].copy_from_slice(&crc.to_le_bytes());
    bytes[n - 32..].copy_from_slice(&h2);
    assert_eq!(open(&bytes).unwrap_err(), AuraError::UnknownRecord(0x14));
}

#[test]
fn bad_bootstrap_breaks_file_verify() {
    let k = key();
    let h = sha3_256(b"s");
    let file = AuraFile {
        header: tpt_aura::container::AuraHeader { version_major: 1, version_minor: 0, sections: vec![] },
        bootstrap: Bootstrap { bytes: vec![1, 2, 3] },
        genesis: GenesisBlock::sign(&k, h, [2u8; 16], 9),
        scene: SceneRecord::new(),
        dag: SemanticDAG::new(),
        ledger: ProvenanceLedger::new(&k, h),
    };
    assert_eq!(
        file.verify().unwrap_err(),
        AuraError::TrustSealBroken("bootstrap WASM failed validation".to_string())
    );
}

#[test]
fn create_file_builds_an_openable_signed_file() {
    let mut img = RgbImage::new(5, 3);
    for y in 0..3 {
        for x in 0..5 {
            img.set_pixel(x, y, ((x * 40) as u8, (y * 70) as u8, 9));
        }
    }
    let key = SigningKey::from_bytes(&[3u8; 32]);
    let bytes = create_file(&img, 2, SemanticDAG::new(), &key, [4u8; 16], 1234).unwrap();
    let f = open(&bytes).unwrap();
    f.verify().unwrap();
    let hash = sha3_256(&img.data);
    assert_eq!(f.genesis.data_hash, hash);
    assert_eq!(f.genesis.device_id, [4u8; 16]);
    assert_eq!(f.genesis.timestamp, 1234);
    f.genesis.verify(&key.verifying_key()).unwrap();
    assert_eq!(f.ledger.root_hash(), hash);
    assert_eq!(f.ledger.len(), 1);
    assert_eq!(f.ledger.entries[0].op, OpType::Capture);
    assert_eq!(f.ledger.entries[0].software, "aura-cli/create");
    f.ledger.verify().unwrap();
    assert_eq!(f.bootstrap, Bootstrap::with_default_wasm());
    let base = encode_tier0(&img, 2);
    let lum = f.scene.children[0].as_luminance_chroma().unwrap();
    assert_eq!((lum.width, lum.height, lum.depth, lum.sampling), (3, 2, 8, 1));
    assert_eq!(lum.data, base.data().to_vec());
    assert_eq!(f.scene.children.len(), 1);
}

#[test]
fn luminance_image_takes_the_first_luminance_record() {
    let mut scene = SceneRecord::new();
    scene.push(SceneChild::SpatialAudio(SpatialAudioRecord {
        channels: 2,
        sample_rate: 48000,
        frames: 1,
        data: vec![1, 2],
    }));
    scene.push(SceneChild::LuminanceChroma(LuminanceChromaRecord {
        width: 1,
        height: 1,
        depth: 8,
        sampling: 1,
        data: vec![7, 8, 9],
    }));
    let f = file_with_scene_only(scene);
    let img = f.luminance_image().unwrap();
    assert_eq!((img.width, img.height, img.data), (1, 1, vec![7, 8, 9]));
    assert!(file_with_scene_only(SceneRecord::new()).luminance_image().is_none());
}

fn file_with_scene_only(scene: SceneRecord) -> AuraFile {
    let k = key();
    let h = sha3_256(b"x");
    let genesis = GenesisBlock::sign(&k, h, [0u8; 16], 0);
    let ledger = ProvenanceLedger::new(&k, h);
    let bytes = AuraBuilder::new(Bootstrap::with_default_wasm(), genesis, scene, SemanticDAG::new(), ledger)
        .build()
        .unwrap();
    open(&bytes).unwrap()
}

#[test]
fn any_changed_byte_past_the_header_fails_the_footer() {
    let bytes = build_file();
    for i in 10..bytes.len() {
        let mut t = bytes.clone();
        t[i] ^= 0x5a;
        assert!(matches!(
            open(&t),
            Err(AuraError::ChecksumMismatch { .. }) | Err(AuraError::HashMismatch)
        ));
    }
}
