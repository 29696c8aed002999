use tpt_aura::codec::{crc32, Reader, Writer};
use tpt_aura::error::AuraError;

#[test]
fn round_trip_primitives() {
    let mut w = Writer::new();
    w.put_u8(0xAB);
    w.put_u16(0x1234);
    w.put_u32(0xDEAD_BEEF);
    w.put_u64(0x0102_0304_0506_0708);
    // An `f32` travels as its bit pattern.
    w.put_u32(3.5f32.to_bits());
    w.put_str("hello");
    w.put_bytes(&[1, 2, 3]);
    let bytes = w.into_inner();

    let mut r = Reader::new(&bytes);
    assert_eq!(r.u8().unwrap(), 0xAB);
    assert_eq!(r.u16().unwrap(), 0x1234);
    assert_eq!(r.u32().unwrap(), 0xDEAD_BEEF);
    assert_eq!(r.u64().unwrap(), 0x0102_0304_0506_0708);
    assert_eq!(f32::from_bits(r.u32().unwrap()), 3.5);
    assert_eq!(r.str().unwrap(), "hello");
    assert_eq!(r.bytes().unwrap(), vec![1, 2, 3]);
    assert_eq!(r.remaining(), 0);
}

#[test]
fn crc_is_stable() {
    assert_eq!(crc32(b""), 0x0000_0000);
    assert_eq!(crc32(b"123456789"), 0xCBF4_3926);
}

#[test]
fn writer_encodes_little_endian() {
    let mut w = Writer::new();
    assert!(w.is_empty());
    w.put_u16(0x0102);
    w.put_u32(0x0304_0506);
    w.put_u64(0x0708_090A_0B0C_0D0E);
    w.put_raw(&[0xFF]);
    assert_eq!(w.len(), 15);
    assert_eq!(
        w.into_inner(),
        vec![2, 1, 6, 5, 4, 3, 0x0E, 0x0D, 0x0C, 0x0B, 0x0A, 9, 8, 7, 0xFF]
    );
}

#[test]
fn reader_past_end_is_unexpected_eof() {
    let bytes = [1u8, 2, 3];
    let mut r = Reader::new(&bytes);
    assert_eq!(r.u32(), Err(AuraError::UnexpectedEof));
    // A failed read leaves the position where it was.
    assert_eq!(r.remaining(), 3);
    assert_eq!(r.u16().unwrap(), 0x0201);
    assert_eq!(r.u16(), Err(AuraError::UnexpectedEof));
    assert_eq!(r.u8().unwrap(), 3);
    assert_eq!(r.u8(), Err(AuraError::UnexpectedEof));
}

#[test]
fn reader_length_prefix_beyond_buffer_is_eof() {
    let mut w = Writer::new();
    w.put_u32(10);
    w.put_raw(&[1, 2]);
    let bytes = w.into_inner();
    let mut r = Reader::new(&bytes);
    assert_eq!(r.bytes(), Err(AuraError::UnexpectedEof));
}

#[test]
fn invalid_utf8_string_is_refused() {
    let mut w = Writer::new();
    w.put_bytes(&[0xFF, 0xFE]);
    let bytes = w.into_inner();
    let mut r = Reader::new(&bytes);
    assert_eq!(r.str(), Err(AuraError::Utf8));
}

#[test]
fn raw_array_and_skip() {
    let bytes = [9u8, 8, 7, 6, 5];
    let mut r = Reader::new(&bytes);
    r.skip(1).unwrap();
    assert_eq!(r.array::<2>().unwrap(), [8, 7]);
    assert_eq!(r.raw(2).unwrap(), vec![6, 5]);
    assert_eq!(r.skip(1), Err(AuraError::UnexpectedEof));
}

#[test]
fn crc_of_single_byte() {
    // CRC-32 of "a" (IEEE 802.3).
    assert_eq!(crc32(b"a"), 0xE8B7_BE43);
}
