use num_bigint::BigUint;
use vlq_rust::standard::{encode_value, Step, VlqDecoder};
use vlq_rust::{Cursor, ReadVlqExt, Vlq, VlqError, WriteVlqExt};

fn roundtrip<T: Vlq>(value: T) -> T {
    let mut buf = vec![];
    buf.write_vlq(value).expect("successful write");
    Cursor::new(buf).read_vlq().expect("successful read")
}

fn written<T: Vlq>(value: T) -> Vec<u8> {
    let mut buf = vec![];
    buf.write_vlq(value).expect("successful write");
    buf
}

fn read_as<T: Vlq>(bytes: Vec<u8>) -> (Result<T, VlqError>, u64) {
    let mut cursor = Cursor::new(bytes);
    let r = cursor.read_vlq();
    (r, cursor.position())
}

#[test]
fn test_smoke() {
    assert_eq!(std::u8::MAX, roundtrip(std::u8::MAX));
    assert_eq!(std::u8::MIN, roundtrip(std::u8::MIN));
    assert_eq!(0u8, roundtrip(0u8));

    assert_eq!(std::i8::MAX, roundtrip(std::i8::MAX));
    assert_eq!(std::i8::MIN, roundtrip(std::i8::MIN));
    assert_eq!(0i8, roundtrip(0i8));
    assert_eq!(-1i8, roundtrip(-1i8));

    assert_eq!(std::u16::MAX, roundtrip(std::u16::MAX));
    assert_eq!(std::u16::MIN, roundtrip(std::u16::MIN));
    assert_eq!(0u16, roundtrip(0u16));

    assert_eq!(std::i16::MAX, roundtrip(std::i16::MAX));
    assert_eq!(std::i16::MIN, roundtrip(std::i16::MIN));
    assert_eq!(0i16, roundtrip(0i16));
    assert_eq!(-1i16, roundtrip(-1i16));

    assert_eq!(std::u32::MAX, roundtrip(std::u32::MAX));
    assert_eq!(std::u32::MIN, roundtrip(std::u32::MIN));
    assert_eq!(0u32, roundtrip(0u32));

    assert_eq!(std::i32::MAX, roundtrip(std::i32::MAX));
    assert_eq!(std::i32::MIN, roundtrip(std::i32::MIN));
    assert_eq!(0i32, roundtrip(0i32));
    assert_eq!(-1i32, roundtrip(-1i32));

    assert_eq!(std::u64::MAX, roundtrip(std::u64::MAX));
    assert_eq!(std::u64::MIN, roundtrip(std::u64::MIN));
    assert_eq!(0u64, roundtrip(0u64));

    assert_eq!(std::i64::MAX, roundtrip(std::i64::MAX));
    assert_eq!(std::i64::MIN, roundtrip(std::i64::MIN));
    assert_eq!(0i64, roundtrip(0i64));
    assert_eq!(-1i64, roundtrip(-1i64));

    assert_eq!(std::u128::MAX, roundtrip(std::u128::MAX));
    assert_eq!(std::u128::MIN, roundtrip(std::u128::MIN));
    assert_eq!(0u128, roundtrip(0u128));

    assert_eq!(std::i128::MAX, roundtrip(std::i128::MAX));
    assert_eq!(std::i128::MIN, roundtrip(std::i128::MIN));
    assert_eq!(0i128, roundtrip(0i128));
    assert_eq!(-1i128, roundtrip(-1i128));
}

#[test]
fn read_write() {
    let mut data = Cursor::new(vec![]);
    data.write_vlq(std::u64::MAX).unwrap();
    data.set_position(0);

    let x: u64 = data.read_vlq().unwrap();
    assert_eq!(x, std::u64::MAX);

    let mut data = Cursor::new(vec![]);
    data.write_vlq(std::i64::MIN).unwrap();
    data.set_position(0);

    let x: i64 = data.read_vlq().unwrap();
    assert_eq!(x, std::i64::MIN);
}

#[test]
fn worked_example_60000() {
    assert_eq!(written(60000u16), vec![0b1110_0000, 0b1101_0100, 0b0000_0011]);
    assert_eq!(written(60000u64), vec![0xE0, 0xD4, 0x03]);
    assert_eq!(encode_value(60000), vec![0xE0, 0xD4, 0x03]);
    assert_eq!(read_as::<u16>(vec![0xE0, 0xD4, 0x03]), (Ok(60000), 3));
}

#[test]
fn zero_is_one_byte() {
    assert_eq!(written(0u8), vec![0]);
    assert_eq!(written(0i64), vec![0]);
    assert_eq!(written(0u128), vec![0]);
    assert_eq!(written(BigUint::from(0u32)), vec![0]);
}

#[test]
fn widths_take_documented_lengths() {
    assert_eq!(written(u8::MAX).len(), 2);
    assert_eq!(written(i8::MIN).len(), 2);
    assert_eq!(written(i8::MAX).len(), 1);
    assert_eq!(written(u16::MAX).len(), 3);
    assert_eq!(written(i16::MIN).len(), 3);
    assert_eq!(written(u32::MAX).len(), 5);
    assert_eq!(written(i32::MIN).len(), 5);
    assert_eq!(written(u64::MAX).len(), 10);
    assert_eq!(written(i64::MIN).len(), 10);
    assert_eq!(written(-1i64).len(), 10);
    assert_eq!(written(u128::MAX).len(), 19);
    assert_eq!(written(i128::MIN).len(), 19);
    assert_eq!(written(127u64).len(), 1);
    assert_eq!(written(128u64).len(), 2);
}

#[test]
fn exact_bytes_of_extremes() {
    assert_eq!(written(u8::MAX), vec![0xFF, 0x01]);
    assert_eq!(written(-1i8), vec![0xFF, 0x01]);
    assert_eq!(written(i8::MIN), vec![0x80, 0x01]);
    assert_eq!(
        written(u64::MAX),
        vec![0xFF, 0xFF, 0xFF, 0xFF, 0xFF, 0xFF, 0xFF, 0xFF, 0xFF, 0x01]
    );
    assert_eq!(
        written(i64::MIN),
        vec![0x80, 0x80, 0x80, 0x80, 0x80, 0x80, 0x80, 0x80, 0x80, 0x01]
    );
}

#[test]
fn one_bit_too_wide_overflows() {
    assert_eq!(read_as::<u8>(written(0x100u16)).0, Err(VlqError::Overflow));
    assert_eq!(read_as::<i8>(written(0x100u16)).0, Err(VlqError::Overflow));
    assert_eq!(read_as::<u16>(written(0x1_0000u32)).0, Err(VlqError::Overflow));
    assert_eq!(read_as::<i16>(written(0x1_0000u32)).0, Err(VlqError::Overflow));
    assert_eq!(read_as::<u32>(written(0x1_0000_0000u64)).0, Err(VlqError::Overflow));
    assert_eq!(read_as::<i32>(written(0x1_0000_0000u64)).0, Err(VlqError::Overflow));
    assert_eq!(read_as::<u64>(written(1u128 << 64)).0, Err(VlqError::Overflow));
    assert_eq!(read_as::<i64>(written(1u128 << 64)).0, Err(VlqError::Overflow));
    let mut wide = written(u128::MAX);
    wide.pop();
    wide.push(0x83);
    wide.push(0x01);
    assert_eq!(read_as::<u128>(wide).0, Err(VlqError::Overflow));
}

#[test]
fn overflow_stops_at_the_offending_byte() {
    // 0x100 as u8: the second byte carries the ninth bit.
    assert_eq!(read_as::<u8>(vec![0x80, 0x02, 0x00]), (Err(VlqError::Overflow), 2));
    // The largest u8 still fits.
    assert_eq!(read_as::<u8>(vec![0xFF, 0x01, 0x00]), (Ok(255), 2));
}

#[test]
fn truncated_source_fails() {
    assert_eq!(read_as::<u32>(vec![]), (Err(VlqError::Truncated), 0));
    assert_eq!(read_as::<u32>(vec![0x80, 0x80]), (Err(VlqError::Truncated), 2));
    assert_eq!(read_as::<u16>(vec![0xE0, 0xD4]), (Err(VlqError::Truncated), 2));
    assert_eq!(
        read_as::<BigUint>(vec![0xFF, 0xFF, 0xFF]).0,
        Err(VlqError::Truncated)
    );
}

#[test]
fn reads_stop_after_the_value() {
    let mut cursor = Cursor::new(vec![0xE0, 0xD4, 0x03, 0x05, 0x7F]);
    let a: u32 = cursor.read_vlq().unwrap();
    assert_eq!(a, 60000);
    assert_eq!(cursor.position(), 3);
    let b: u8 = cursor.read_vlq().unwrap();
    assert_eq!(b, 5);
    let c: i8 = cursor.read_vlq().unwrap();
    assert_eq!(c, 127);
    let d: Result<u8, VlqError> = cursor.read_vlq();
    assert_eq!(d, Err(VlqError::Truncated));
}

#[test]
fn trailing_zero_groups_are_accepted() {
    assert_eq!(read_as::<u8>(vec![0x85, 0x80, 0x80, 0x00]), (Ok(5), 4));
}

#[test]
fn cursor_writes_over_and_past_the_end() {
    let mut data = Cursor::new(vec![1, 2, 3, 4]);
    data.set_position(1);
    data.write_vlq(300u32).unwrap();
    assert_eq!(data.position(), 3);
    assert_eq!(data.get_ref(), &vec![1, 0xAC, 0x02, 4]);
    data.set_position(6);
    data.write_vlq(1u8).unwrap();
    assert_eq!(data.into_inner(), vec![1, 0xAC, 0x02, 4, 0, 0, 1]);
}

#[test]
fn cursor_refuses_a_write_past_the_largest_position() {
    let mut data = Cursor::new(vec![9]);
    data.set_position(u64::MAX);
    assert_eq!(data.write_vlq(5u8), Err(VlqError::Rejected));
    assert_eq!(data.position(), u64::MAX);
    assert_eq!(data.into_inner(), vec![9]);
}

#[test]
fn biguint_writes_base_128_digits() {
    assert_eq!(written(BigUint::from(300u32)), vec![0xAC, 0x02]);
    assert_eq!(written(BigUint::from(60000u32)), vec![0xE0, 0xD4, 0x03]);
    assert_eq!(written(BigUint::from(u64::MAX)), written(u64::MAX));
}

#[test]
fn biguint_reads_base_128_digits() {
    let (r, used) = read_as::<BigUint>(vec![0xAC, 0x02, 0x77]);
    assert_eq!(r, Ok(BigUint::from(300u32)));
    assert_eq!(used, 2);
    let (r, _) = read_as::<BigUint>(written(u128::MAX));
    assert_eq!(r, Ok(BigUint::from(u128::MAX)));
}

#[test]
fn biguint_round_trip() {
    let big = BigUint::from(u128::MAX) * BigUint::from(u128::MAX) + BigUint::from(12345u32);
    assert_eq!(roundtrip(big.clone()), big);
    assert_eq!(roundtrip(BigUint::from(0u32)), BigUint::from(0u32));
    assert_eq!(roundtrip(BigUint::from(127u32)), BigUint::from(127u32));
    assert_eq!(roundtrip(BigUint::from(128u32)), BigUint::from(128u32));
}

#[test]
fn decoder_steps_through_bytes() {
    let mut d = VlqDecoder::new(u16::MAX as u128);
    assert_eq!(d.push(0xE0), Step::More);
    assert_eq!(d.push(0xD4), Step::More);
    assert_eq!(d.push(0x03), Step::Done(60000));

    let mut d = VlqDecoder::new(u8::MAX as u128);
    assert_eq!(d.push(0x80), Step::More);
    assert_eq!(d.push(0x02), Step::Overflow);
}
