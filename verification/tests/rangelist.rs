//! The acknowledgement range list: merging, boundaries, iteration and
//! the wire encoding.

use rakshim::bitio::{BitReader, BitWriter};
use rakshim::rangelist::RangeList;

const DATA: &[u8] =
    b"\xd0\x02\x00\x00\x00\x06\x00\x00\x00\x05\x00\x00\x00\x06\x00\x00\x00\x84\x00\x00\x00\x03\x80\x00\x00\x04@\x00\x00\x00";

#[test]
fn insert() {
    let values = [1u32, 2, 3, 4];
    let mut list = RangeList::new();
    for value in &values {
        list.insert(*value);
    }
    assert_eq!(list.num_ranges(), 1);
    assert_eq!(list.range_at(0).0, 1);
    assert_eq!(list.range_at(0).1, 4);
}

#[test]
fn underflow() {
    let mut list = RangeList::new();
    list.insert(u32::MIN);
    list.insert(u32::MIN);
    assert_eq!(list.num_ranges(), 1);
    assert_eq!(list.range_at(0).0, u32::MIN);
    assert_eq!(list.range_at(0).1, u32::MIN);
}

#[test]
fn rangelist_overflow() {
    let mut list = RangeList::new();
    list.insert(u32::MAX);
    list.insert(u32::MAX);
    assert_eq!(list.num_ranges(), 1);
    assert_eq!(list.range_at(0).0, u32::MAX);
    assert_eq!(list.range_at(0).1, u32::MAX);
}

fn create_multiple_ranges() -> RangeList {
    let values = [1u32, 2, 3, 5, 6, 8, 14, 15, 16, 17];
    let mut list = RangeList::new();
    for value in &values {
        list.insert(*value);
    }
    list
}

fn assert_multiple_ranges(list: &RangeList) {
    assert_eq!(list.num_ranges(), 4);
    assert_eq!(list.len(), 10);
    assert_eq!(list.range_at(0), (1, 3));
    assert_eq!(list.range_at(1), (5, 6));
    assert_eq!(list.range_at(2), (8, 8));
    assert_eq!(list.range_at(3), (14, 17));
}

#[test]
fn multiple_ranges() {
    let list = create_multiple_ranges();
    assert_multiple_ranges(&list);
}

#[test]
fn clear() {
    let mut list = create_multiple_ranges();
    list.clear();
    assert_eq!(list.num_ranges(), 0);
}

#[test]
fn serialize() {
    let list = create_multiple_ranges();
    let mut writer = BitWriter::new();
    list.serialize(&mut writer);
    assert_eq!(writer.finish(), DATA);
}

#[test]
fn deserialize() {
    let mut reader = BitReader::new(DATA);
    let list = RangeList::deserialize(&mut reader).unwrap();
    assert_multiple_ranges(&list);
}

#[test]
fn iteration_ascending_distinct() {
    // Any permutation of a multiset yields each distinct value exactly
    // once, ascending, and `len` counts the distinct values.
    let values = [17u32, 3, 5, 1, 2, 8, 16, 5, 14, 6, 15, 3, 1];
    let mut list = RangeList::new();
    for value in &values {
        list.insert(*value);
    }
    assert_eq!(list.len(), 10);
    let mut items = list.into_iter();
    let mut seen: Vec<u32> = Vec::new();
    while let Some(v) = items.next() {
        seen.push(v);
    }
    assert_eq!(seen, vec![1, 2, 3, 5, 6, 8, 14, 15, 16, 17]);
}

#[test]
fn iteration_boundary_values() {
    let mut list = RangeList::new();
    list.insert(u32::MAX);
    list.insert(0);
    list.insert(u32::MAX);
    let mut items = list.into_iter();
    assert_eq!(items.next(), Some(0));
    assert_eq!(items.next(), Some(u32::MAX));
    assert_eq!(items.next(), None);
}

#[test]
fn adjacent_values_merge() {
    let mut list = RangeList::new();
    list.insert(5);
    list.insert(7);
    assert_eq!(list.num_ranges(), 2);
    list.insert(6);
    assert_eq!(list.num_ranges(), 1);
    assert_eq!(list.range_at(0), (5, 7));
}

#[test]
fn serialization_round_trip() {
    let list = create_multiple_ranges();
    let mut writer = BitWriter::new();
    list.serialize(&mut writer);
    let bytes = writer.finish();
    let mut reader = BitReader::new(bytes.as_slice());
    let back = RangeList::deserialize(&mut reader).unwrap();
    assert_multiple_ranges(&back);
}
