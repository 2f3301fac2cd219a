use yara_x::leb128::{sleb128, uleb128, LebError};

#[test]
fn test_uleb_parsing() {
    let (n, _) = uleb128(&[0b1000_0001, 0b000_0001]).unwrap();
    assert_eq!(129, n);

    let (n, _) = uleb128(&[0b1000_0000, 0b0000_0001]).unwrap();
    assert_eq!(128, n);

    let (n, _) = uleb128(&[0b111_1111]).unwrap();
    assert_eq!(127, n);

    let (n, _) = uleb128(&[0b111_1110]).unwrap();
    assert_eq!(126, n);

    let (n, _) = uleb128(&[0b000_0000]).unwrap();
    assert_eq!(0, n);

    let (n, _) = uleb128(&[0b1010_0000, 0b0000_0001]).unwrap();
    assert_eq!(160, n);

    let (n, _) = uleb128(&[0b1001_0110, 0b0000_0101]).unwrap();
    assert_eq!(662, n);

    let (n, _) = uleb128(&[0b1110_0101, 0b1000_1110, 0b0010_0110]).unwrap();
    assert_eq!(624485, n);

    let (n, _) = uleb128(&[0x80, 0x80, 0x80, 0x00]).unwrap();
    assert_eq!(0, n);

    let (n, _) = uleb128(&[0x80, 0x80, 0x80, 0x80, 0x80, 0x80, 0x80, 0x00]).unwrap();
    assert_eq!(0, n);

    let (n, _) = uleb128(&[0xff, 0xff, 0xff, 0xff, 0xff, 0xff, 0xff, 0x7f]).unwrap();
    assert_eq!(72057594037927935, n);

    assert!(uleb128(&[0x80, 0x80, 0x80, 0x80, 0x80, 0x80, 0x80, 0x80, 0x80, 0x80, 0x00,]).is_err());
}

#[test]
fn test_sleb_parsing() {
    let sleb_128_in = vec![0b1100_0111, 0b1001_1111, 0b111_1111];
    let (result, _) = sleb128(&sleb_128_in).unwrap();
    assert_eq!(-12345, result);

    let sleb_128_in = vec![0b1001_1100, 0b111_1111];
    let (result, _) = sleb128(&sleb_128_in).unwrap();
    assert_eq!(-100, result);

    let sleb_128_in = vec![0b1111_1111, 0b0];
    let (result, _) = sleb128(&sleb_128_in).unwrap();
    assert_eq!(127, result);

    let sleb_128_in = vec![0b111_1111];
    let (result, _) = sleb128(&sleb_128_in).unwrap();
    assert_eq!(-1, result);

    let sleb_128_in = vec![0b1111_1110, 0b0];
    let (result, _) = sleb128(&sleb_128_in).unwrap();
    assert_eq!(126, result);

    let sleb_128_in = vec![0b000_0000];
    let (result, _) = sleb128(&sleb_128_in).unwrap();
    assert_eq!(0, result);

    assert!(sleb128(&[0x80, 0x80, 0x80, 0x80, 0x80, 0x80, 0x80, 0x80, 0x80, 0x80, 0x00,]).is_err());
}

#[test]
fn uleb_reports_consumed_length() {
    assert_eq!(uleb128(&[0xE5, 0x8E, 0x26, 0xFF]), Ok((624485, 3)));
    assert_eq!(uleb128(&[0x7F]), Ok((127, 1)));
}

#[test]
fn uleb_eleven_bytes_is_too_large() {
    let mut v = vec![0x80u8; 10];
    v.push(0x00);
    assert_eq!(uleb128(&v), Err(LebError::TooLarge));
}

#[test]
fn uleb_truncated_input() {
    assert_eq!(uleb128(&[]), Err(LebError::Truncated));
    assert_eq!(uleb128(&[0x80, 0x80]), Err(LebError::Truncated));
}

#[test]
fn uleb_ten_bytes_keep_low_bits() {
    // The tenth byte is shifted by 63: only its lowest bit fits.
    let v = [0x80, 0x80, 0x80, 0x80, 0x80, 0x80, 0x80, 0x80, 0x80, 0x03];
    assert_eq!(uleb128(&v), Ok((1u64 << 63, 10)));
}

#[test]
fn sleb_examples() {
    assert_eq!(sleb128(&[0xC7, 0x9F, 0x7F]), Ok((-12345, 3)));
    assert_eq!(sleb128(&[0x7F]), Ok((-1, 1)));
    assert_eq!(sleb128(&[0x9C, 0x7F]), Ok((-100, 2)));
    assert_eq!(sleb128(&[0x80]), Err(LebError::Truncated));
}
