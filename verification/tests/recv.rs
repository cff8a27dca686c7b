//! The legacy receive engine: ordering, deduplication, wrap-around,
//! split reassembly and disconnect detection.

use rakshim::bridge::MessageType;
use rakshim::packet::{RaknetPacket, ReliabilityData, SplitPacketInfo};
use rakshim::rangelist::RangeList;
use rakshim::recv::ReceivePart;

fn unrel_seq(index: u32) -> RaknetPacket {
    RaknetPacket {
        message_number: index,
        rel_data: ReliabilityData::UnreliableSequenced(index),
        split_packet_info: None,
        data: vec![index as u8],
    }
}

fn rel_ord(index: u32) -> RaknetPacket {
    RaknetPacket {
        message_number: index,
        rel_data: ReliabilityData::ReliableOrdered(index),
        split_packet_info: None,
        data: vec![index as u8],
    }
}

#[test]
fn unrel() {
    let mut recv = ReceivePart::default();
    let mut acks = RangeList::new();
    let rak_packets = vec![RaknetPacket {
        message_number: 0,
        rel_data: ReliabilityData::Unreliable,
        split_packet_info: None,
        data: vec![],
    }];
    let packets = recv.process_incoming_packets(rak_packets, &mut acks, &mut false).unwrap();
    assert_eq!(acks.len(), 0);
    assert_eq!(packets.len(), 1);
}

#[test]
fn unrel_seq_duplicate() {
    let mut recv = ReceivePart::default();
    let mut acks = RangeList::new();
    let rak_packets = vec![unrel_seq(1), unrel_seq(1)];
    let packets = recv.process_incoming_packets(rak_packets, &mut acks, &mut false).unwrap();
    assert_eq!(acks.len(), 0);
    assert_eq!(packets.len(), 1);
}

#[test]
fn unrel_seq_too_early() {
    let mut recv = ReceivePart::default();
    let mut acks = RangeList::new();
    let rak_packets = vec![unrel_seq(1)];
    let packets = recv.process_incoming_packets(rak_packets, &mut acks, &mut false).unwrap();
    assert_eq!(packets.len(), 1);
}

#[test]
fn unrel_seq_caught_up() {
    let mut recv = ReceivePart::default();
    let mut acks = RangeList::new();
    let rak_packets = vec![unrel_seq(1), unrel_seq(0)];
    let packets = recv.process_incoming_packets(rak_packets, &mut acks, &mut false).unwrap();
    assert_eq!(packets.len(), 1);
}

#[test]
fn unrel_seq_gap_too_large() {
    let mut recv = ReceivePart::default();
    let mut acks = RangeList::new();
    let rak_packets = vec![unrel_seq(u32::MAX)];
    let packets = recv.process_incoming_packets(rak_packets, &mut acks, &mut false).unwrap();
    assert_eq!(packets.len(), 0);
}

#[test]
fn unrel_seq_overflow() {
    let mut recv = ReceivePart::default();
    let mut acks = RangeList::new();
    recv.unrel_seq_index = u32::MAX;
    let rak_packets = vec![unrel_seq(u32::MAX), unrel_seq(u32::MIN)];
    let packets = recv.process_incoming_packets(rak_packets, &mut acks, &mut false).unwrap();
    assert_eq!(packets.len(), 2);
}

#[test]
fn unrel_seq_overflow_gap() {
    let mut recv = ReceivePart::default();
    let mut acks = RangeList::new();
    recv.unrel_seq_index = u32::MAX - 1;
    let rak_packets = vec![unrel_seq(u32::MAX - 1), unrel_seq(u32::MIN)];
    let packets = recv.process_incoming_packets(rak_packets, &mut acks, &mut false).unwrap();
    assert_eq!(packets.len(), 2);
}

#[test]
fn rel_ord_duplicate() {
    let mut recv = ReceivePart::default();
    let mut acks = RangeList::new();
    let rak_packets = vec![rel_ord(0), rel_ord(0)];
    let packets = recv.process_incoming_packets(rak_packets, &mut acks, &mut false).unwrap();
    assert_eq!(acks.len(), 1);
    assert_eq!(packets.len(), 1);
}

#[test]
fn rel_ord_too_early() {
    let mut recv = ReceivePart::default();
    let mut acks = RangeList::new();
    let rak_packets = vec![rel_ord(1)];
    let packets = recv.process_incoming_packets(rak_packets, &mut acks, &mut false).unwrap();
    assert_eq!(acks.len(), 1);
    assert_eq!(packets.len(), 0);
}

#[test]
fn rel_ord_caught_up() {
    let mut recv = ReceivePart::default();
    let mut acks = RangeList::new();
    let rak_packets = vec![rel_ord(1), rel_ord(0)];
    let packets = recv.process_incoming_packets(rak_packets, &mut acks, &mut false).unwrap();
    assert_eq!(acks.len(), 2);
    assert_eq!(packets.len(), 2);
    assert_eq!(packets[0].data[0], 0);
    assert_eq!(packets[1].data[0], 1);
}

#[test]
fn rel_ord_gap() {
    let mut recv = ReceivePart::default();
    let mut acks = RangeList::new();
    let rak_packets = vec![rel_ord(5), rel_ord(1), rel_ord(0)];
    let packets = recv.process_incoming_packets(rak_packets, &mut acks, &mut false).unwrap();
    assert_eq!(acks.len(), 3);
    assert_eq!(packets.len(), 2);
    assert_eq!(packets[0].data[0], 0);
    assert_eq!(packets[1].data[0], 1);
}

#[test]
fn rel_ord_overflow_duplicate() {
    let mut recv = ReceivePart::default();
    let mut acks = RangeList::new();
    let rak_packets = vec![rel_ord(u32::MAX)];
    let packets = recv.process_incoming_packets(rak_packets, &mut acks, &mut false).unwrap();
    assert_eq!(packets.len(), 0);
    assert_eq!(recv.out_of_order_packets.len(), 0);
}

#[test]
fn rel_ord_overflow_index() {
    let mut recv = ReceivePart::default();
    let mut acks = RangeList::new();
    recv.rel_ord_index = u32::MAX;
    let rak_packets = vec![rel_ord(u32::MAX), rel_ord(u32::MIN)];
    let packets = recv.process_incoming_packets(rak_packets, &mut acks, &mut false).unwrap();
    assert_eq!(packets.len(), 2);
    assert_eq!(packets[0].data[0], u8::MAX);
    assert_eq!(packets[1].data[0], u8::MIN);
}

#[test]
fn rel_ord_overflow_index_out_of_order() {
    let mut recv = ReceivePart::default();
    let mut acks = RangeList::new();
    recv.rel_ord_index = u32::MAX;
    let rak_packets = vec![rel_ord(u32::MIN), rel_ord(u32::MAX)];
    let packets = recv.process_incoming_packets(rak_packets, &mut acks, &mut false).unwrap();
    assert_eq!(packets.len(), 2);
    assert_eq!(packets[0].data[0], u8::MAX);
    assert_eq!(packets[1].data[0], u8::MIN);
}

#[test]
fn rel_ord_overflow_queue_drain() {
    let mut recv = ReceivePart::default();
    let mut acks = RangeList::new();
    recv.rel_ord_index = u32::MAX - 1;
    let rak_packets = vec![rel_ord(u32::MAX), rel_ord(u32::MAX - 1)];
    let packets = recv.process_incoming_packets(rak_packets, &mut acks, &mut false).unwrap();
    assert_eq!(packets.len(), 2);
    assert_eq!(packets[0].data[0], u8::MAX - 1);
    assert_eq!(packets[1].data[0], u8::MAX);
}

#[test]
fn single_split_packet() {
    let mut recv = ReceivePart::default();
    let mut acks = RangeList::new();
    let rak_packets = vec![RaknetPacket {
        message_number: 0,
        rel_data: ReliabilityData::ReliableOrdered(0),
        split_packet_info: Some(SplitPacketInfo { id: 0, index: 0, count: 2 }),
        data: vec![],
    }];
    let packets = recv.process_incoming_packets(rak_packets, &mut acks, &mut false).unwrap();
    assert_eq!(acks.len(), 1);
    assert_eq!(packets.len(), 0);
}

#[test]
fn all_split_packets() {
    let mut recv = ReceivePart::default();
    let mut acks = RangeList::new();
    let rak_packets = vec![
        RaknetPacket {
            message_number: 0,
            rel_data: ReliabilityData::ReliableOrdered(0),
            split_packet_info: Some(SplitPacketInfo { id: 0, index: 1, count: 2 }),
            data: vec![3, 4, 5],
        },
        RaknetPacket {
            message_number: 1,
            rel_data: ReliabilityData::ReliableOrdered(0),
            split_packet_info: Some(SplitPacketInfo { id: 0, index: 0, count: 2 }),
            data: vec![0, 1, 2],
        },
    ];
    let packets = recv.process_incoming_packets(rak_packets, &mut acks, &mut false).unwrap();
    assert_eq!(acks.len(), 2);
    assert_eq!(packets.len(), 1);
    assert_eq!(packets[0].data, vec![0, 1, 2, 3, 4, 5]);
}

#[test]
fn disconnect_close() {
    let mut recv = ReceivePart::default();
    let mut acks = RangeList::new();
    let mut closed = false;
    let rak_packets = vec![RaknetPacket {
        message_number: 0,
        rel_data: ReliabilityData::ReliableOrdered(0),
        split_packet_info: None,
        data: vec![MessageType::DisconnectNotification.id()],
    }];
    let packets = recv.process_incoming_packets(rak_packets, &mut acks, &mut closed).unwrap();
    assert!(closed);
    assert_eq!(packets.len(), 0);
}

#[test]
fn bad_split_count_is_fatal() {
    let mut recv = ReceivePart::default();
    let mut acks = RangeList::new();
    let rak_packets = vec![RaknetPacket {
        message_number: 0,
        rel_data: ReliabilityData::ReliableOrdered(0),
        split_packet_info: Some(SplitPacketInfo { id: 0, index: 0, count: 1 }),
        data: vec![],
    }];
    assert!(recv.process_incoming_packets(rak_packets, &mut acks, &mut false).is_err());
}

#[test]
fn bad_split_index_is_fatal() {
    let mut recv = ReceivePart::default();
    let mut acks = RangeList::new();
    let rak_packets = vec![RaknetPacket {
        message_number: 0,
        rel_data: ReliabilityData::ReliableOrdered(0),
        split_packet_info: Some(SplitPacketInfo { id: 0, index: 2, count: 2 }),
        data: vec![],
    }];
    assert!(recv.process_incoming_packets(rak_packets, &mut acks, &mut false).is_err());
}
