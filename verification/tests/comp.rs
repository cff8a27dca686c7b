//! The compressed integer codec on the wire vectors, plus round trips.

use rakshim::bitio::{BitReader, BitWriter};
use rakshim::comp::Compressed;

#[test]
fn read_comp_u16_small() {
    let b: &[u8] = b"\xf8";
    let mut reader = BitReader::new(b);
    let v = Compressed::<u16>::deserialize(&mut reader).unwrap();
    assert_eq!(v.0, 14);
}

#[test]
fn read_comp_u16_large() {
    let b: &[u8] = b"\x33\xdd\x80";
    let mut reader = BitReader::new(b);
    let v = Compressed::<u16>::deserialize(&mut reader).unwrap();
    assert_eq!(v.0, 47975);
}

#[test]
fn write_comp_u16_small() {
    let mut writer = BitWriter::new();
    Compressed::<u16>(14).serialize(&mut writer);
    assert_eq!(writer.finish(), b"\xf8");
}

#[test]
fn write_comp_u16_large() {
    let mut writer = BitWriter::new();
    Compressed::<u16>(47975u16).serialize(&mut writer);
    assert_eq!(writer.finish(), b"\x33\xdd\x80");
}

#[test]
fn read_comp_u32_small() {
    let b: &[u8] = b"\xfe";
    let mut reader = BitReader::new(b);
    let v = Compressed::<u32>::deserialize(&mut reader).unwrap();
    assert_eq!(v.0, 14);
}

#[test]
fn read_comp_u32_large() {
    let b: &[u8] = b"\x29\x43\x7f\xf4\x80";
    let mut reader = BitReader::new(b);
    let v = Compressed::<u32>::deserialize(&mut reader).unwrap();
    assert_eq!(v.0, 3925837394);
}

#[test]
fn write_comp_u32_small() {
    let mut writer = BitWriter::new();
    Compressed::<u32>(14).serialize(&mut writer);
    assert_eq!(writer.finish(), b"\xfe");
}

#[test]
fn write_comp_u32_large() {
    let mut writer = BitWriter::new();
    Compressed::<u32>(3925837394).serialize(&mut writer);
    assert_eq!(writer.finish(), b"\x29\x43\x7f\xf4\x80");
}

fn round_trip_u16(v: u16) {
    let mut writer = BitWriter::new();
    Compressed::<u16>(v).serialize(&mut writer);
    let bytes = writer.finish();
    let mut reader = BitReader::new(bytes.as_slice());
    let back = Compressed::<u16>::deserialize(&mut reader).unwrap();
    assert_eq!(back.0, v);
}

fn round_trip_u32(v: u32) {
    let mut writer = BitWriter::new();
    Compressed::<u32>(v).serialize(&mut writer);
    let bytes = writer.finish();
    let mut reader = BitReader::new(bytes.as_slice());
    let back = Compressed::<u32>::deserialize(&mut reader).unwrap();
    assert_eq!(back.0, v);
}

#[test]
fn round_trip_every_u16() {
    let mut v: u32 = 0;
    while v <= u16::MAX as u32 {
        round_trip_u16(v as u16);
        v += 1;
    }
}

#[test]
fn round_trip_u32_sample() {
    let samples = [
        0u32,
        1,
        14,
        15,
        16,
        255,
        256,
        65535,
        65536,
        0xff_ffff,
        0x100_0000,
        0x7fff_ffff,
        0x8000_0000,
        3925837394,
        u32::MAX,
    ];
    for v in samples {
        round_trip_u32(v);
    }
}
