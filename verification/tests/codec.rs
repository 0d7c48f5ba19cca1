use icepeak_kv::data::arc_str::{ArcString, StringCastError};
use icepeak_kv::data::primitives::PrimitiveCastError;
use icepeak_kv::data::{Data, DataBytes};

#[test]
fn u64_encodes_big_endian() {
    let d = 0x0102030405060708u64.into_data();
    assert_eq!(d.as_slice(), &[1, 2, 3, 4, 5, 6, 7, 8]);
}

#[test]
fn u16_encodes_big_endian() {
    let d = 0xBEEFu16.into_data();
    assert_eq!(d.as_slice(), &[0xBE, 0xEF]);
}

#[test]
fn i8_encodes_twos_complement() {
    let d = (-1i8).into_data();
    assert_eq!(d.as_slice(), &[0xFF]);
}

#[test]
fn i32_encodes_twos_complement() {
    let d = (-2i32).into_data();
    assert_eq!(d.as_slice(), &[0xFF, 0xFF, 0xFF, 0xFE]);
}

#[test]
fn unsigned_round_trips() {
    assert_eq!(u8::from_data(0xABu8.into_data()), Ok(0xAB));
    assert_eq!(u16::from_data(0x1234u16.into_data()), Ok(0x1234));
    assert_eq!(u32::from_data(0xDEADBEEFu32.into_data()), Ok(0xDEADBEEF));
    assert_eq!(u64::from_data(u64::MAX.into_data()), Ok(u64::MAX));
    assert_eq!(
        u128::from_data(0x0123456789ABCDEF0123456789ABCDEFu128.into_data()),
        Ok(0x0123456789ABCDEF0123456789ABCDEFu128)
    );
    assert_eq!(usize::from_data(usize::MAX.into_data()), Ok(usize::MAX));
}

#[test]
fn signed_round_trips() {
    assert_eq!(i8::from_data((-128i8).into_data()), Ok(-128));
    assert_eq!(i16::from_data((-32768i16).into_data()), Ok(-32768));
    assert_eq!(i32::from_data(0x7FFFFFFFi32.into_data()), Ok(0x7FFFFFFF));
    assert_eq!(i64::from_data((-42i64).into_data()), Ok(-42));
    assert_eq!(i128::from_data(i128::MIN.into_data()), Ok(i128::MIN));
    assert_eq!(isize::from_data((-7isize).into_data()), Ok(-7));
}

#[test]
fn decode_ignores_trailing_bytes() {
    let d = DataBytes::new(vec![0x01, 0x02, 0x03]);
    assert_eq!(u16::from_data(d), Ok(0x0102));
}

#[test]
fn short_buffer_reports_expected_width() {
    let d = DataBytes::new(vec![1, 2, 3]);
    assert_eq!(
        u32::from_data(d),
        Err(PrimitiveCastError::NotEnoughData(4))
    );
    let d = DataBytes::new(Vec::new());
    assert_eq!(u8::from_data(d), Err(PrimitiveCastError::NotEnoughData(1)));
    let d = DataBytes::new(vec![0; 15]);
    assert_eq!(
        u128::from_data(d),
        Err(PrimitiveCastError::NotEnoughData(16))
    );
}

#[test]
fn string_round_trips_utf8() {
    let s = ArcString::new("h\u{e9}llo \u{4e16}\u{754c}".to_string());
    let d = s.clone().into_data();
    let back = ArcString::from_data(d).unwrap();
    assert_eq!(back, s);
}

#[test]
fn string_encodes_as_utf8_bytes() {
    let s = ArcString::new("123".to_string());
    assert_eq!(s.as_str(), "123");
    let d = s.into_data();
    assert_eq!(d.as_slice(), b"123");
}

#[test]
fn invalid_utf8_is_rejected() {
    let d = DataBytes::new(vec![0xFF, 0xFE]);
    assert_eq!(
        ArcString::from_data(d),
        Err(StringCastError::InvalidUtf8)
    );
}

#[test]
fn data_bytes_exposes_its_content() {
    let d = DataBytes::new(vec![9, 8, 7]);
    assert_eq!(d.len(), 3);
    assert_eq!(d.as_slice(), &[9, 8, 7]);
    let c = d.clone();
    assert_eq!(c.as_slice(), d.as_slice());
}
