use among_us::decode::{Cursor, Error};
use among_us::encode::CursorMut;

fn encoded<F: FnOnce(&mut CursorMut)>(f: F) -> Vec<u8> {
    let mut c = CursorMut::new();
    f(&mut c);
    c.into_bytes()
}

#[test]
fn integers_encode_little_endian() {
    assert_eq!(encoded(|c| { assert!(c.encode(&0x1234u16).is_ok()); }), vec![0x34, 0x12]);
    assert_eq!(encoded(|c| { assert!(c.encode(&-2i16).is_ok()); }), vec![0xfe, 0xff]);
    assert_eq!(encoded(|c| { assert!(c.encode(&1u32).is_ok()); }), vec![1, 0, 0, 0]);
    assert_eq!(encoded(|c| { assert!(c.encode(&i8::MIN).is_ok()); }), vec![0x80]);
    assert_eq!(encoded(|c| { assert!(c.encode(&-1i128).is_ok()); }), vec![0xff; 16]);
    assert_eq!(encoded(|c| { assert!(c.encode(&u64::MAX).is_ok()); }), vec![0xff; 8]);
}

#[test]
fn integers_decode_little_endian() {
    let mut c = Cursor::new(vec![0x34, 0x12, 0xfe, 0xff, 0x80]);
    assert!(matches!(c.decode::<u16>(), Ok(0x1234)));
    assert!(matches!(c.decode::<i16>(), Ok(-2)));
    assert!(matches!(c.decode::<i8>(), Ok(-128)));
    assert!(matches!(c.decode::<u8>(), Err(Error::UnexpectedEnd)));
}

#[test]
fn integers_round_trip() {
    let bytes = encoded(|c| {
        assert!(c.encode(&i64::MIN).is_ok());
        assert!(c.encode(&u128::MAX).is_ok());
        assert!(c.encode(&-7i32).is_ok());
    });
    let mut c = Cursor::new(bytes);
    assert!(matches!(c.decode::<i64>(), Ok(i64::MIN)));
    assert!(matches!(c.decode::<u128>(), Ok(u128::MAX)));
    assert!(matches!(c.decode::<i32>(), Ok(-7)));
}

#[test]
fn short_input_is_an_unexpected_end() {
    let mut c = Cursor::new(vec![1, 2, 3]);
    assert!(matches!(c.decode::<u32>(), Err(Error::UnexpectedEnd)));
}

#[test]
fn read_copies_what_is_left() {
    let mut c = Cursor::new(vec![1, 2, 3]);
    let mut buf = [9u8; 2];
    assert_eq!(c.read(&mut buf), 2);
    assert_eq!(buf, [1, 2]);
    assert_eq!(c.read(&mut buf), 1);
    assert_eq!(buf, [3, 2]);
    assert_eq!(c.read(&mut buf), 0);
}

#[test]
fn strings_are_length_prefixed() {
    let bytes = encoded(|c| { assert!(c.encode(&String::from("hé")).is_ok()); });
    assert_eq!(bytes, vec![3, 0, b'h', 0xc3, 0xa9]);
    let mut c = Cursor::new(bytes);
    match c.decode::<String>() {
        Ok(s) => assert_eq!(s, "hé"),
        Err(_) => panic!("decoding failed"),
    }
}

#[test]
fn string_too_long_for_its_prefix_is_refused() {
    let long = "x".repeat(70_000);
    let mut c = CursorMut::new();
    c.write(&[7]);
    assert!(c.encode(&long).is_err());
    assert_eq!(c.into_bytes(), vec![7]);
}

#[test]
fn string_with_invalid_utf8_is_a_utf8_error() {
    let mut c = Cursor::new(vec![2, 0, 0xff, 0xfe]);
    assert!(matches!(c.decode::<String>(), Err(Error::Utf8(_))));
}

#[test]
fn string_shorter_than_its_prefix_is_an_unexpected_end() {
    let mut c = Cursor::new(vec![5, 0, b'a', b'b']);
    assert!(matches!(c.decode::<String>(), Err(Error::UnexpectedEnd)));
    let mut c = Cursor::new(vec![5]);
    assert!(matches!(c.decode::<String>(), Err(Error::UnexpectedEnd)));
}

#[test]
fn error_constructors() {
    assert!(matches!(Error::unexpected_end(), Error::UnexpectedEnd));
    let e = std::str::from_utf8(&[0xff]).unwrap_err();
    assert!(matches!(Error::utf8(e), Error::Utf8(_)));
}
