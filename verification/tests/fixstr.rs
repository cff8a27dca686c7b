//! The 33-byte fixed string fields.

use rakshim::fixstr::{ReadStr, StrError, WriteStr};

#[test]
fn read_long() {
    let bytes = b"a thirty-two bytes long str test\0";
    let read = bytes[..].read_fix(0).unwrap();
    assert_eq!(read, "a thirty-two bytes long str test");
}

#[test]
fn read_short() {
    let bytes = b"short\0garbage garbage garbage \xff\xff\xff";
    let read = bytes[..].read_fix(0).unwrap();
    assert_eq!(read, "short");
}

#[test]
fn read_no_null() {
    let bytes = b" a string without null terminator";
    let err = bytes[..].read_fix(0).unwrap_err();
    assert_eq!(err, StrError::NoTerminator);
}

#[test]
fn read_invalid_utf8() {
    let bytes = b"\xff\xff\xff\xff\xff\0garbage garbage garbage gar";
    let err = bytes[..].read_fix(0).unwrap_err();
    assert_eq!(err, StrError::NotUtf8);
}

#[test]
fn write_long() {
    let mut vec: Vec<u8> = Vec::new();
    vec.write_fix("a thirty-two bytes long str test").unwrap();
    assert_eq!(vec, &b"a thirty-two bytes long str test\0"[..]);
}

#[test]
fn write_short() {
    let mut vec: Vec<u8> = Vec::new();
    vec.write_fix("short").unwrap();
    assert_eq!(vec, &b"short\0\0\0\0\0\0\0\0\0\0\0\0\0\0\0\0\0\0\0\0\0\0\0\0\0\0\0\0"[..]);
}

#[test]
fn write_too_long() {
    let mut vec: Vec<u8> = Vec::new();
    let s = "\u{1F602}\u{1F602}\u{1F602}\u{1F602}\u{1F602}\u{1F602}\u{1F602}\u{1F602}\u{1F602}";
    let err = vec.write_fix(s).unwrap_err();
    assert!(vec.is_empty());
    assert_eq!(err, StrError::TooLong);
}

#[test]
fn read_at_offset() {
    let mut bytes = vec![0xabu8; 5];
    bytes.extend_from_slice(b"offset string\0");
    bytes.extend_from_slice(&[0x11; 19]);
    let read = bytes[..].read_fix(5).unwrap();
    assert_eq!(read, "offset string");
}
