use varint::{VarInt, VarIntError};

fn must(v: Result<VarInt, VarIntError>) -> VarInt {
    match v {
        Ok(x) => x,
        Err(_) => panic!("value unexpectedly rejected"),
    }
}

fn round_trip(x: u64) -> u64 {
    let v = must(VarInt::try_from_u64(x));
    let bytes = v.encode();
    assert_eq!(bytes.len(), v.size());
    let (back, used) = VarInt::decode(&bytes).expect("decode of a fresh encoding");
    assert_eq!(used, bytes.len());
    back.to_u64()
}

#[test]
fn round_trip_across_tiers() {
    for &x in &[
        0u64,
        1,
        7,
        63,
        64,
        300,
        16383,
        16384,
        65535,
        1_073_741_823,
        1_073_741_824,
        987_654_321_012,
        0x3fff_ffff_ffff_fffe,
        0x3fff_ffff_ffff_ffff,
    ] {
        assert_eq!(round_trip(x), x);
    }
}

#[test]
fn size_per_tier() {
    assert_eq!(VarInt::from_u8(0).size(), 1);
    assert_eq!(VarInt::from_u8(63).size(), 1);
    assert_eq!(VarInt::from_u8(64).size(), 2);
    assert_eq!(VarInt::from_u16(16383).size(), 2);
    assert_eq!(VarInt::from_u16(16384).size(), 4);
    assert_eq!(VarInt::from_u32(1_073_741_823).size(), 4);
    assert_eq!(VarInt::from_u32(1_073_741_824).size(), 8);
    assert_eq!(must(VarInt::try_from_u64(VarInt::MAX)).size(), 8);
}

#[test]
fn boundary_encoding_lengths() {
    for &(x, len) in &[
        (63u64, 1usize),
        (64, 2),
        (16383, 2),
        (16384, 4),
        (1_073_741_823, 4),
        (1_073_741_824, 8),
    ] {
        let bytes = must(VarInt::try_from_u64(x)).encode();
        assert_eq!(bytes.len(), len, "value {}", x);
    }
}

#[test]
fn range_rejection_at_bound() {
    assert_eq!(
        VarInt::try_from_u64(4_611_686_018_427_387_904),
        Err(VarIntError::OutOfRange)
    );
    let v = must(VarInt::try_from_u64(4_611_686_018_427_387_903));
    assert_eq!(v.to_u64(), 4_611_686_018_427_387_903);
}

#[test]
fn range_rejection_usize() {
    let v = VarInt::try_from_usize(12345usize).expect("small usize fits");
    assert_eq!(v.to_u64(), 12345);
    if usize::BITS == 64 {
        assert_eq!(
            VarInt::try_from_usize(usize::MAX),
            Err(VarIntError::OutOfRange)
        );
    }
}

#[test]
fn tag_announces_length() {
    for &x in &[0u64, 63, 64, 16383, 16384, 1_073_741_823, 1_073_741_824, VarInt::MAX] {
        let bytes = must(VarInt::try_from_u64(x)).encode();
        assert_eq!(VarInt::encoded_size(bytes[0]), bytes.len());
    }
    assert_eq!(VarInt::encoded_size(0x00), 1);
    assert_eq!(VarInt::encoded_size(0x3f), 1);
    assert_eq!(VarInt::encoded_size(0x40), 2);
    assert_eq!(VarInt::encoded_size(0x7f), 2);
    assert_eq!(VarInt::encoded_size(0x80), 4);
    assert_eq!(VarInt::encoded_size(0xbf), 4);
    assert_eq!(VarInt::encoded_size(0xc0), 8);
    assert_eq!(VarInt::encoded_size(0xff), 8);
}

#[test]
fn short_read_fails() {
    assert_eq!(VarInt::decode(&[]), Err(VarIntError::Truncated));
    assert_eq!(VarInt::decode(&[0x41]), Err(VarIntError::Truncated));
    assert_eq!(VarInt::decode(&[0x80, 0x00]), Err(VarIntError::Truncated));
    assert_eq!(
        VarInt::decode(&[0xc0, 1, 2, 3, 4, 5, 6]),
        Err(VarIntError::Truncated)
    );
    // One byte short of each tier.
    for &x in &[64u64, 16384, 1_073_741_824] {
        let bytes = must(VarInt::try_from_u64(x)).encode();
        let short = &bytes[..bytes.len() - 1];
        assert_eq!(VarInt::decode(short), Err(VarIntError::Truncated));
    }
}

#[test]
fn concrete_wire_bytes() {
    let bytes = VarInt::from_u8(7).encode();
    assert_eq!(bytes, vec![0x07]);
    let (v, used) = VarInt::decode(&[0x07]).expect("one full byte");
    assert_eq!((v.to_u64(), used), (7, 1));

    let bytes = VarInt::from_u16(300).encode();
    assert_eq!(bytes, vec![0x41, 0x2c]);
    let (v, used) = VarInt::decode(&[0x41, 0x2c]).expect("two full bytes");
    assert_eq!((v.to_u64(), used), (300, 2));
}

#[test]
fn decode_ignores_trailing_bytes() {
    let (v, used) = VarInt::decode(&[0x07, 0xee, 0xff]).expect("leading value");
    assert_eq!((v.to_u64(), used), (7, 1));
    let (v, used) = VarInt::decode(&[0x41, 0x2c, 0x99]).expect("leading value");
    assert_eq!((v.to_u64(), used), (300, 2));
}

#[test]
fn masked_tag_bits_decode_in_range() {
    // An 8-byte encoding with every bit set: the tag bits are cleared, so
    // the value is exactly 2^62 - 1, not an error.
    let (v, used) = VarInt::decode(&[0xff; 8]).expect("well-formed tier");
    assert_eq!(used, 8);
    assert_eq!(v.to_u64(), VarInt::MAX);
}

#[test]
fn construction_widths() {
    assert_eq!(VarInt::from_u8(u8::MAX).to_u64(), 255);
    assert_eq!(VarInt::from_u16(u16::MAX).to_u64(), 65535);
    assert_eq!(VarInt::from_u32(u32::MAX).to_u64(), 4_294_967_295);
}

#[test]
fn value_semantics() {
    let a = must(VarInt::try_from_u64(300));
    let b = VarInt::from_u16(300);
    let c = VarInt::from_u8(7);
    assert_eq!(a, b);
    assert_ne!(a, c);
    assert!(c < a);
    assert_eq!(VarInt::MAX, (1u64 << 62) - 1);
    assert_eq!(VarInt::MAX_SIZE, 8);
}
