use vlq_rust::fast::{decode, decode_len, encode, encode_len};

#[test]
fn check_decode() {
    assert_eq!(decode_len(0b1111_1111), 1, "max for 1");
    assert_eq!(decode_len(0b1000_0000), 1, "min for 1");
    assert_eq!(decode_len(0b0111_1111), 2, "max for 2");
    assert_eq!(decode_len(0b0100_0000), 2, "min for 2");
    assert_eq!(decode_len(0b0011_1111), 3, "max for 3");
    assert_eq!(decode_len(0b0010_0000), 3, "min for 3");
    assert_eq!(decode_len(0b0001_1111), 4, "max for 4");
    assert_eq!(decode_len(0b0001_0000), 4, "min for 4");
    assert_eq!(decode_len(0b0000_1111), 5, "max for 5");
    assert_eq!(decode_len(0b0000_1000), 5, "min for 5");
    assert_eq!(decode_len(0b0000_0111), 6, "max for 6");
    assert_eq!(decode_len(0b0000_0100), 6, "min for 6");
    assert_eq!(decode_len(0b0000_0011), 7, "max for 7");
    assert_eq!(decode_len(0b0000_0010), 7, "min for 7");
    assert_eq!(decode_len(0b0000_0001), 8, "min/max for 8");
    assert_eq!(decode_len(0b0000_0000), 9, "min/max for 9");
}

#[test]
fn round_trip() {
    assert_eq!(decode(encode(std::u64::MIN)), std::u64::MIN);
    assert_eq!(decode(encode(0x7F)), 0x7F, "max for 1");
    assert_eq!(decode(encode(0x80)), 0x80, "min for 2");
    assert_eq!(decode(encode(0x3FFF)), 0x3FFF, "max for 2");
    assert_eq!(decode(encode(0x4000)), 0x4000, "min for 3");
    assert_eq!(decode(encode(0x0F_FFFF)), 0x0F_FFFF, "max for 3");
    assert_eq!(decode(encode(0x20_0000)), 0x20_0000, "min for 4");
    assert_eq!(decode(encode(0x1FFF_FFFF)), 0x1FFF_FFFF, "max for 4");
    assert_eq!(decode(encode(0x2000_0000)), 0x2000_0000, "min for 5");
    assert_eq!(decode(encode(0x17_FFFF_FFFF)), 0x17_FFFF_FFFF, "max for 5");
    assert_eq!(decode(encode(0x18_0000_0000)), 0x18_0000_0000, "min for 6");
    assert_eq!(
        decode(encode(0x13FF_FFFF_FFFF)),
        0x13FF_FFFF_FFFF,
        "max for 6"
    );
    assert_eq!(
        decode(encode(0x1411_1111_1111)),
        0x1411_1111_1111,
        "min for 7"
    );
    assert_eq!(
        decode(encode(0x10_FFFF_FFFF_FFFF)),
        0x10_FFFF_FFFF_FFFF,
        "max for 7"
    );
    assert_eq!(
        decode(encode(0x12_1111_1111_1111)),
        0x12_1111_1111_1111,
        "min for 8"
    );
    assert_eq!(
        decode(encode(0x11FF_FFFF_FFFF_FFFF)),
        0x11FF_FFFF_FFFF_FFFF,
        "max for 8"
    );
    assert_eq!(
        decode(encode(0x1011_1111_1111_1111)),
        0x1011_1111_1111_1111,
        "min for 9"
    );
    assert_eq!(decode(encode(std::u64::MAX)), std::u64::MAX);
    assert_eq!(decode(encode(std::i64::MIN as u64)) as i64, std::i64::MIN);

    assert_eq!(1, decode(encode(0x1)), "1");
    assert_eq!(0, decode(encode(0x0)), "0");
    assert_eq!(0x011, decode(encode(0x011)), "2");
    assert_eq!(0xFF221122, decode(encode(0xFF221122)), "3");
    assert_eq!(
        0x11FF_FFFF_FFFF_FFFF,
        decode(encode(0x11FF_FFFF_FFFF_FFFF)),
        "4"
    );
    assert_eq!(
        0x1011_1111_1111_1111,
        decode(encode(0x1011_1111_1111_1111)),
        "5"
    );
    assert_eq!(std::u64::MAX, decode(encode(std::u64::MAX)), "max");
}

#[test]
fn fast_zero_is_one_byte() {
    let v = encode(0);
    assert_eq!(v.len(), 1);
    assert_eq!(&*v, &[0x80, 0, 0, 0, 0, 0, 0, 0, 0]);
}

#[test]
fn fast_documented_boundaries() {
    assert_eq!(encode(0x7F).len(), 1);
    assert_eq!(encode(0x80).len(), 2);
    assert_eq!(encode(0xFFFF_FFFF_FFFF_FFFF).len(), 9);
}

#[test]
fn fast_tier_edges() {
    let starts: [u64; 9] = [
        0x80,
        0x4080,
        0x20_4080,
        0x1020_4080,
        0x8_1020_4080,
        0x408_1020_4080,
        0x2_0408_1020_4080,
        0x102_0408_1020_4080,
        0,
    ];
    for t in 0..8 {
        let top = starts[t] - 1;
        let next = starts[t];
        assert_eq!(encode(top).len() as usize, t + 1);
        assert_eq!(encode(next).len() as usize, t + 2);
        assert_eq!(encode_len(top) as usize, t + 1);
        assert_eq!(encode_len(next) as usize, t + 2);
        assert_eq!(decode(encode(top)), top);
        assert_eq!(decode(encode(next)), next);
    }
}

#[test]
fn fast_exact_bytes() {
    assert_eq!(&*encode(0x7F), &[0xFF, 0, 0, 0, 0, 0, 0, 0, 0]);
    assert_eq!(&*encode(0x80), &[0x40, 0x00, 0, 0, 0, 0, 0, 0, 0]);
    assert_eq!(&*encode(0x407F), &[0x7F, 0xFF, 0, 0, 0, 0, 0, 0, 0]);
    assert_eq!(&*encode(0x4080), &[0x20, 0x00, 0x00, 0, 0, 0, 0, 0, 0]);
    assert_eq!(
        &*encode(0x102_0408_1020_4080),
        &[0x00, 0, 0, 0, 0, 0, 0, 0, 0]
    );
    assert_eq!(
        &*encode(0x102_0408_1020_407F),
        &[0x01, 0xFF, 0xFF, 0xFF, 0xFF, 0xFF, 0xFF, 0xFF, 0]
    );
    assert_eq!(
        &*encode(u64::MAX),
        &[0x00, 0xFE, 0xFD, 0xFB, 0xF7, 0xEF, 0xDF, 0xBF, 0x7F]
    );
}
