use vlint::{decode_u128, encode_u128, DecodeError, VLInt};

#[test]
fn to_vlint() {
    assert_eq!(4.vlint(), vec![0b000_0100]);
    assert_eq!(0.vlint(), vec![0b000_0000]);
    assert_eq!(127.vlint(), vec![0b0111_1111]);
    assert_eq!(300.vlint(), vec![0b1010_1100, 0b0000_0010]);
}

#[test]
fn roundtrip() {
    assert_eq!(Ok(4), i32::from_vlint(&4.vlint()));
    assert_eq!(Ok(0), i32::from_vlint(&0.vlint()));
    assert_eq!(Ok(127), i32::from_vlint(&127.vlint()));
    assert_eq!(Ok(300), i32::from_vlint(&300.vlint()));
}

#[test]
fn zero_encodes_as_one_byte() {
    assert_eq!(0u64.vlint(), vec![0x00]);
    assert_eq!(u64::from_vlint(&[0x00]), Ok(0));
}

#[test]
fn seven_bit_limit_is_one_byte() {
    assert_eq!(127u8.vlint(), vec![0x7f]);
    assert_eq!(127u32.vlint(), vec![0x7f]);
}

#[test]
fn crossing_seven_bits_adds_a_byte() {
    assert_eq!(128u32.vlint(), vec![0x80, 0x01]);
    assert_eq!(u32::from_vlint(&[0x80, 0x01]), Ok(128));
}

#[test]
fn multi_byte_example() {
    assert_eq!(300u16.vlint(), vec![0xac, 0x02]);
    assert_eq!(u16::from_vlint(&[0xac, 0x02]), Ok(300));
    assert_eq!(i64::from_vlint(&[0xac, 0x02]), Ok(300));
}

#[test]
fn truncated_input_fails() {
    assert_eq!(u32::from_vlint(&[0x80]), Err(DecodeError::TruncatedInput));
    assert_eq!(i32::from_vlint(&[0x80]), Err(DecodeError::TruncatedInput));
    assert_eq!(u8::from_vlint(&[]), Err(DecodeError::TruncatedInput));
    assert_eq!(decode_u128(&[0xff, 0xff, 0xff]), Err(DecodeError::TruncatedInput));
}

#[test]
fn decoding_stops_at_first_terminal_byte() {
    assert_eq!(u32::from_vlint(&[0x05, 0xff, 0x80]), Ok(5));
    assert_eq!(u32::from_vlint(&[0xac, 0x02, 0x7f]), Ok(300));
}

#[test]
fn round_trip_at_type_limits() {
    assert_eq!(u8::from_vlint(&u8::MAX.vlint()), Ok(u8::MAX));
    assert_eq!(u16::from_vlint(&u16::MAX.vlint()), Ok(u16::MAX));
    assert_eq!(u32::from_vlint(&u32::MAX.vlint()), Ok(u32::MAX));
    assert_eq!(u64::from_vlint(&u64::MAX.vlint()), Ok(u64::MAX));
    assert_eq!(u128::from_vlint(&u128::MAX.vlint()), Ok(u128::MAX));
    assert_eq!(i8::from_vlint(&i8::MAX.vlint()), Ok(i8::MAX));
    assert_eq!(i16::from_vlint(&i16::MAX.vlint()), Ok(i16::MAX));
    assert_eq!(i32::from_vlint(&i32::MAX.vlint()), Ok(i32::MAX));
    assert_eq!(i64::from_vlint(&i64::MAX.vlint()), Ok(i64::MAX));
    assert_eq!(i128::from_vlint(&i128::MAX.vlint()), Ok(i128::MAX));
}

#[test]
fn encoding_length_is_minimal() {
    assert_eq!(0u32.vlint().len(), 1);
    assert_eq!(((1u32 << 14) - 1).vlint().len(), 2);
    assert_eq!((1u32 << 14).vlint().len(), 3);
    assert_eq!(u32::MAX.vlint().len(), 5);
    assert_eq!(u64::MAX.vlint().len(), 10);
    assert_eq!(u128::MAX.vlint().len(), 19);
}

#[test]
fn continuation_bit_on_all_but_last_byte() {
    for v in [0u64, 1, 127, 128, 300, 16_383, 16_384, 1 << 35, u64::MAX] {
        let bytes = v.vlint();
        let last = bytes.len() - 1;
        for (i, b) in bytes.iter().enumerate() {
            assert_eq!(*b >= 0x80, i < last);
        }
    }
}

#[test]
fn wider_values_wrap_to_the_type() {
    assert_eq!(u8::from_vlint(&[0x80, 0x02]), Ok(0));
    assert_eq!(u8::from_vlint(&[0x81, 0x03]), Ok(0x81));
    assert_eq!(i8::from_vlint(&[0xff, 0x01]), Ok(-1));
    assert_eq!(i32::from_vlint(&u32::MAX.vlint()), Ok(-1));
    assert_eq!(u16::from_vlint(&70_000u32.vlint()), Ok(70_000u32 as u16));
}

#[test]
fn groups_beyond_128_bits_are_dropped() {
    let mut bytes = u128::MAX.vlint();
    let last = bytes.len() - 1;
    bytes[last] |= 0x80;
    bytes.push(0x7f);
    assert_eq!(decode_u128(&bytes), Ok(u128::MAX));
}

#[test]
fn core_codec_matches_trait() {
    assert_eq!(encode_u128(300), vec![0xac, 0x02]);
    assert_eq!(decode_u128(&[0xac, 0x02]), Ok(300));
    assert_eq!(encode_u128(u128::MAX).len(), 19);
}

#[test]
fn word_sized_integers() {
    assert_eq!(300usize.vlint(), vec![0xac, 0x02]);
    assert_eq!(usize::from_vlint(&[0xac, 0x02]), Ok(300));
    assert_eq!(usize::from_vlint(&usize::MAX.vlint()), Ok(usize::MAX));
    assert_eq!(isize::from_vlint(&isize::MAX.vlint()), Ok(isize::MAX));
    assert_eq!(isize::from_vlint(&usize::MAX.vlint()), Ok(-1));
    assert_eq!(isize::from_vlint(&[0x80]), Err(DecodeError::TruncatedInput));
}
