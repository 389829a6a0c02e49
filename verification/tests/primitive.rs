use flvparse::primitive::{be_u16, be_u24, be_u32, be_u64, be_u8, take};
use flvparse::ParseError;

#[test]
fn be_u8_reads_the_first_byte() {
    let input = [0x7f, 0x01, 0x02];
    assert_eq!(be_u8(&input), Ok((&input[1..], 0x7f)));
    assert_eq!(be_u8(&[0xff]), Ok((&[][..], 0xff)));
}

#[test]
fn be_u8_on_empty_input_needs_one_byte() {
    assert_eq!(be_u8(&[]), Err(ParseError::Incomplete(1)));
}

#[test]
fn be_u16_is_big_endian() {
    let input = [0x12, 0x34, 0x56];
    assert_eq!(be_u16(&input), Ok((&input[2..], 0x1234)));
    assert_eq!(be_u16(&[0xff, 0xff]), Ok((&[][..], 0xffff)));
}

#[test]
fn be_u16_reports_the_missing_bytes() {
    assert_eq!(be_u16(&[]), Err(ParseError::Incomplete(2)));
    assert_eq!(be_u16(&[0x12]), Err(ParseError::Incomplete(1)));
}

#[test]
fn be_u24_is_big_endian_and_zero_extended() {
    let input = [0xab, 0xcd, 0xef, 0x99];
    assert_eq!(be_u24(&input), Ok((&input[3..], 0x00ab_cdef)));
    assert_eq!(be_u24(&[0xff, 0xff, 0xff]), Ok((&[][..], 0x00ff_ffff)));
    assert_eq!(be_u24(&[0x00, 0x00, 0x01]), Ok((&[][..], 1)));
}

#[test]
fn be_u24_reports_the_missing_bytes() {
    assert_eq!(be_u24(&[]), Err(ParseError::Incomplete(3)));
    assert_eq!(be_u24(&[1]), Err(ParseError::Incomplete(2)));
    assert_eq!(be_u24(&[1, 2]), Err(ParseError::Incomplete(1)));
}

#[test]
fn be_u32_is_big_endian() {
    let input = [0x01, 0x02, 0x03, 0x04, 0x05];
    assert_eq!(be_u32(&input), Ok((&input[4..], 0x0102_0304)));
    assert_eq!(be_u32(&[0xff, 0xff, 0xff, 0xff]), Ok((&[][..], u32::MAX)));
}

#[test]
fn be_u32_reports_the_missing_bytes() {
    assert_eq!(be_u32(&[]), Err(ParseError::Incomplete(4)));
    assert_eq!(be_u32(&[1, 2, 3]), Err(ParseError::Incomplete(1)));
}

#[test]
fn be_u64_is_big_endian() {
    let input = [0x01, 0x02, 0x03, 0x04, 0x05, 0x06, 0x07, 0x08, 0x09];
    assert_eq!(be_u64(&input), Ok((&input[8..], 0x0102_0304_0506_0708)));
    assert_eq!(be_u64(&[0xff; 8]), Ok((&[][..], u64::MAX)));
}

#[test]
fn be_u64_reports_the_missing_bytes() {
    assert_eq!(be_u64(&[]), Err(ParseError::Incomplete(8)));
    assert_eq!(be_u64(&[0; 7]), Err(ParseError::Incomplete(1)));
}

#[test]
fn take_splits_the_input() {
    let input = [1, 2, 3, 4, 5];
    assert_eq!(take(&input, 2), Ok((&input[2..], &input[..2])));
    assert_eq!(take(&input, 0), Ok((&input[..], &[][..])));
    assert_eq!(take(&input, 5), Ok((&[][..], &input[..])));
}

#[test]
fn take_reports_the_missing_bytes() {
    assert_eq!(take(&[1, 2, 3], 5), Err(ParseError::Incomplete(2)));
    assert_eq!(take(&[], 1), Err(ParseError::Incomplete(1)));
}

#[test]
fn take_borrows_from_the_input() {
    let input = [1u8, 2, 3, 4, 5];
    let (rest, head) = take(&input, 2).unwrap();
    assert!(std::ptr::eq(head.as_ptr(), input.as_ptr()));
    assert!(std::ptr::eq(rest.as_ptr(), input[2..].as_ptr()));
}

#[test]
fn incomplete_is_the_transient_outcome() {
    assert!(ParseError::Incomplete(3).is_incomplete());
    assert!(!ParseError::Format(flvparse::FormatError::BadSignature).is_incomplete());
}

#[test]
fn within_payload_turns_a_shortage_into_a_malformation() {
    assert_eq!(
        ParseError::Incomplete(3).within_payload(),
        ParseError::Format(flvparse::FormatError::PayloadTooShort)
    );
    assert_eq!(
        ParseError::Format(flvparse::FormatError::InvalidUtf8).within_payload(),
        ParseError::Format(flvparse::FormatError::InvalidUtf8)
    );
}
