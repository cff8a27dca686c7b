//! The legacy send engine: numbering, ordinal assignment, splitting and
//! counter wrap-around.

use rakshim::bridge::{Packet, Reliability};
use rakshim::packet::ReliabilityData;
use rakshim::rangelist::RangeList;
use rakshim::recv::ReceivePart;
use rakshim::send::{SendPart, MAX_PACKET_SIZE};

#[test]
fn message_number() {
    let mut send = SendPart::new();
    let packets = vec![
        Packet { data: vec![], reliability: Reliability::Unreliable },
        Packet { data: vec![], reliability: Reliability::Unreliable },
    ];
    let rak_packets = send.process_outgoing_packets(packets);
    assert_eq!(rak_packets[0].message_number, 0);
    assert_eq!(rak_packets[1].message_number, 1);
}

#[test]
fn unrel_seq_index() {
    let mut send = SendPart::new();
    let packets = vec![
        Packet { data: vec![], reliability: Reliability::UnreliableSequenced },
        Packet { data: vec![], reliability: Reliability::UnreliableSequenced },
    ];
    let rak_packets = send.process_outgoing_packets(packets);
    if let ReliabilityData::UnreliableSequenced(i) = rak_packets[0].rel_data {
        assert_eq!(i, 0);
    } else {
        panic!();
    }
    if let ReliabilityData::UnreliableSequenced(i) = rak_packets[1].rel_data {
        assert_eq!(i, 1);
    } else {
        panic!();
    }
}

#[test]
fn rel_ord_index() {
    let mut send = SendPart::new();
    let packets = vec![
        Packet { data: vec![], reliability: Reliability::ReliableOrdered },
        Packet { data: vec![], reliability: Reliability::ReliableOrdered },
    ];
    let rak_packets = send.process_outgoing_packets(packets);
    if let ReliabilityData::ReliableOrdered(i) = rak_packets[0].rel_data {
        assert_eq!(i, 0);
    } else {
        panic!();
    }
    if let ReliabilityData::ReliableOrdered(i) = rak_packets[1].rel_data {
        assert_eq!(i, 1);
    } else {
        panic!();
    }
}

#[test]
fn split_packet() {
    let mut send = SendPart::new();
    let packets = vec![Packet {
        data: vec![0; MAX_PACKET_SIZE * 3],
        reliability: Reliability::ReliableOrdered,
    }];
    let rak_packets = send.process_outgoing_packets(packets);
    assert_eq!(rak_packets.len(), 4);
    for (i, rak_packet) in rak_packets.into_iter().enumerate() {
        assert_eq!(rak_packet.message_number, i as u32);
        if let ReliabilityData::ReliableOrdered(ord) = rak_packet.rel_data {
            assert_eq!(ord, 0);
        } else {
            panic!();
        }
        let info = rak_packet.split_packet_info.unwrap();
        assert_eq!(info.id, 0);
        assert_eq!(info.count, 4);
        assert_eq!(info.index, i as u32);
    }
}

#[test]
fn send_overflow() {
    let mut send = SendPart {
        message_number: u32::MAX,
        split_packet_index: u16::MAX,
        unrel_seq_index: u32::MAX,
        rel_ord_index: u32::MAX,
    };

    assert_eq!(send.message_number(), u32::MAX);
    assert_eq!(send.message_number(), u32::MIN);
    assert_eq!(send.split_packet_index(), u16::MAX);
    assert_eq!(send.split_packet_index(), u16::MIN);
    if let ReliabilityData::UnreliableSequenced(i) = send.rel_data(&Reliability::UnreliableSequenced)
    {
        assert_eq!(i, u32::MAX);
    } else {
        panic!()
    }
    if let ReliabilityData::UnreliableSequenced(i) = send.rel_data(&Reliability::UnreliableSequenced)
    {
        assert_eq!(i, u32::MIN);
    } else {
        panic!()
    }
    if let ReliabilityData::ReliableOrdered(i) = send.rel_data(&Reliability::ReliableOrdered) {
        assert_eq!(i, u32::MAX);
    } else {
        panic!()
    }
    if let ReliabilityData::ReliableOrdered(i) = send.rel_data(&Reliability::ReliableOrdered) {
        assert_eq!(i, u32::MIN);
    } else {
        panic!()
    }
}

#[test]
fn reassembled_split_survives_round_trip() {
    // What the send engine splits, the receive engine puts back together.
    let mut payload: Vec<u8> = Vec::new();
    for i in 0..(MAX_PACKET_SIZE * 2 + 7) {
        payload.push((i % 251) as u8);
    }
    let mut send = SendPart::new();
    let rak_packets = send.process_outgoing_packets(vec![Packet {
        data: payload.clone(),
        reliability: Reliability::ReliableOrdered,
    }]);
    assert!(rak_packets.len() > 1);
    let mut recv = ReceivePart::default();
    let mut acks = RangeList::new();
    let packets = recv.process_incoming_packets(rak_packets, &mut acks, &mut false).unwrap();
    assert_eq!(packets.len(), 1);
    assert_eq!(packets[0].data, payload);
}
