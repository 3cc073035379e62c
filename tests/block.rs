use dbsp::block::{next_multiple_of_pow2, BlockLocation, Varint};

#[test]
fn varint_widths() {
    assert_eq!(Varint::from_max_value(0), Varint::B8);
    assert_eq!(Varint::from_max_value(0xff), Varint::B8);
    assert_eq!(Varint::from_max_value(0x100), Varint::B16);
    assert_eq!(Varint::from_max_value(0xff_ffff), Varint::B24);
    assert_eq!(Varint::from_max_value(0x1_0000_0000), Varint::B48);
    assert_eq!(Varint::from_max_value(u64::MAX), Varint::B64);
    assert_eq!(Varint::from_len(256), Varint::B8);
    assert_eq!(Varint::from_len(257), Varint::B16);
    assert_eq!(Varint::B24.alignment(), 1);
    assert_eq!(Varint::B48.alignment(), 2);
    assert_eq!(Varint::B32.alignment(), 4);
    assert_eq!(Varint::B48.len(), 6);
    assert_eq!(Varint::B32.align(5), 8);
    assert_eq!(Varint::B24.align(5), 5);
}

#[test]
fn varint_put_get() {
    let mut buf = vec![0xaau8];
    Varint::B24.put(&mut buf, 0x0102_0304);
    assert_eq!(buf, vec![0xaa, 0x04, 0x03, 0x02]);
    assert_eq!(Varint::B24.get(&buf, 1), 0x02_0304);
    let mut buf = Vec::new();
    Varint::B48.put(&mut buf, 0x1234_5678_9abc);
    assert_eq!(Varint::B48.get(&buf, 0), 0x1234_5678_9abc);
    assert_eq!(Varint::parse_opt(0), Ok(None));
    assert_eq!(Varint::parse_opt(6), Ok(Some(Varint::B48)));
    assert_eq!(Varint::parse_opt(5), Err(5));
    assert_eq!(Varint::write_opt(Some(Varint::B64)), 8);
    assert_eq!(Varint::write_opt(None), 0);
}

#[test]
fn alignment_rounding() {
    assert_eq!(next_multiple_of_pow2(0, 8), 0);
    assert_eq!(next_multiple_of_pow2(9, 8), 16);
    assert_eq!(next_multiple_of_pow2(16, 16), 16);
    assert_eq!(next_multiple_of_pow2(usize::MAX, 1), usize::MAX);
    assert_eq!(next_multiple_of_pow2(usize::MAX - 7, 8), usize::MAX - 7);
}

#[test]
fn block_locations() {
    let b = BlockLocation::new(8192, 4096).unwrap();
    assert_eq!((b.offset, b.size), (8192, 4096));
    assert!(BlockLocation::new(8192, 1 << 31).is_ok());
    assert!(BlockLocation::new(100, 4096).is_err());
    assert!(BlockLocation::new(4096, 2048).is_err());
    assert!(BlockLocation::new(4096, 6000).is_err());
    let e = BlockLocation::new(4096, 1 << 32).unwrap_err();
    assert_eq!(e.size, 1 << 32);
}

#[test]
fn block_locator_encoding() {
    let b = BlockLocation::new(3 * 4096, 8192).unwrap();
    let code = b.to_u64();
    assert_eq!(code, (3 * 4096 >> 7) | 13);
    let back = BlockLocation::from_u64(code).unwrap();
    assert_eq!((back.offset, back.size), (3 * 4096, 8192));
    // a size of 2^11 is below the minimum block size
    assert!(BlockLocation::from_u64(11).is_err());
    let ok = BlockLocation::from_u64(12).unwrap();
    assert_eq!((ok.offset, ok.size), (0, 4096));
    let big = BlockLocation::new(1 << 40, 1 << 31).unwrap();
    let back = BlockLocation::from_u64(big.to_u64()).unwrap();
    assert_eq!((back.offset, back.size), (1 << 40, 1 << 31));
}

#[test]
fn block_locator_rejects_offset_overflow() {
    assert!(BlockLocation::from_u64(0x1000_0000_0000_000c).is_err());
    assert!(BlockLocation::from_u64(0x0100_0000_0000_000c).is_ok());
    assert!(BlockLocation::from_u64(0x0200_0000_0000_000c).is_err());
}
