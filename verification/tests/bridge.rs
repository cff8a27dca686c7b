//! The payload scanner, address rewriting, datagram dispatch, the packet
//! name table, and the legacy connection end to end.

use rakshim::bitio::BitWriter;
use rakshim::bridge::{
    classify_raknet_datagram, connection_reply, rewrite_address, scan_packet, DispatchAction,
    MessageType, Packet, Reliability,
};
use rakshim::connection::{Connection, SendError};
use rakshim::fixstr::WriteStr;
use rakshim::log::packet_name;
use rakshim::packet::{RaknetPacket, ReliabilityData};

fn login_response_packet(host: &str, port: u16) -> Vec<u8> {
    let mut data = vec![0u8; 414];
    data[0] = 83;
    data[1] = 5;
    data[3] = 0;
    data[8] = 1;
    let mut field: Vec<u8> = Vec::new();
    field.write_fix(host).unwrap();
    data[345..378].copy_from_slice(&field);
    data[411] = (port & 0xff) as u8;
    data[412] = (port >> 8) as u8;
    data
}

fn redirect_packet(host: &str, port: u16) -> Vec<u8> {
    let mut data = vec![0u8; 43];
    data[0] = 83;
    data[1] = 5;
    data[3] = 14;
    let mut field: Vec<u8> = Vec::new();
    field.write_fix(host).unwrap();
    data[8..41].copy_from_slice(&field);
    data[41] = (port & 0xff) as u8;
    data[42] = (port >> 8) as u8;
    data
}

#[test]
fn scan_login_response() {
    let data = login_response_packet("localhost", 2001);
    let hit = scan_packet(&data).unwrap().unwrap();
    assert_eq!(hit.host, "localhost");
    assert_eq!(hit.port, 2001);
    assert_eq!(hit.host_off, 345);
    assert_eq!(hit.port_off, 411);
}

#[test]
fn scan_redirect() {
    let data = redirect_packet("example.invalid", 3001);
    let hit = scan_packet(&data).unwrap().unwrap();
    assert_eq!(hit.host, "example.invalid");
    assert_eq!(hit.port, 3001);
    assert_eq!(hit.host_off, 8);
    assert_eq!(hit.port_off, 41);
}

#[test]
fn scan_passes_other_packets() {
    assert!(scan_packet(&vec![1, 2, 3]).unwrap().is_none());
    let mut data = vec![0u8; 64];
    data[0] = 83;
    data[1] = 5;
    data[3] = 7;
    assert!(scan_packet(&data).unwrap().is_none());
    // A login response without the success flag is left alone.
    let mut data = login_response_packet("localhost", 2001);
    data[8] = 0;
    assert!(scan_packet(&data).unwrap().is_none());
}

#[test]
fn scan_short_redirect_is_error() {
    let mut data = vec![0u8; 20];
    data[0] = 83;
    data[1] = 5;
    data[3] = 14;
    assert!(scan_packet(&data).is_err());
}

#[test]
fn scan_rejects_missing_terminator() {
    let mut data = redirect_packet("x", 1);
    for b in data[8..41].iter_mut() {
        *b = 0x41;
    }
    assert!(scan_packet(&data).is_err());
}

#[test]
fn rewrite_login_response() {
    let mut data = login_response_packet("localhost", 2001);
    let hit = scan_packet(&data).unwrap().unwrap();
    rewrite_address(&mut data, hit.host_off, hit.port_off, 4555);
    let hit2 = scan_packet(&data).unwrap().unwrap();
    assert_eq!(hit2.host, "127.0.0.1");
    assert_eq!(hit2.port, 4555);
    // Nothing outside the two fields moved.
    assert_eq!(data[0], 83);
    assert_eq!(data[8], 1);
    assert_eq!(data.len(), 414);
}

#[test]
fn classify_open_connection_request() {
    let req = [MessageType::OpenConnectionRequest.id()];
    assert_eq!(classify_raknet_datagram(false, &req), DispatchAction::OfferConnection);
    let req2 = [MessageType::OpenConnectionRequest.id(), 0];
    assert_eq!(classify_raknet_datagram(false, &req2), DispatchAction::OfferConnection);
    assert_eq!(classify_raknet_datagram(false, &[9, 0, 0]), DispatchAction::Ignore);
    assert_eq!(classify_raknet_datagram(false, &[4]), DispatchAction::Ignore);
    assert_eq!(classify_raknet_datagram(false, &[]), DispatchAction::Ignore);
    assert_eq!(classify_raknet_datagram(true, &[4]), DispatchAction::HandleKnown);
}

#[test]
fn connection_reply_bytes() {
    assert_eq!(connection_reply(true), vec![10, 0]);
    assert_eq!(connection_reply(false), vec![18, 0]);
}

#[test]
fn packet_names() {
    let name = |data: Vec<u8>| {
        packet_name(&Packet { reliability: Reliability::Unreliable, data })
    };
    assert_eq!(name(vec![]), "<Empty packet>");
    assert_eq!(name(vec![0]), "InternalPing");
    assert_eq!(name(vec![19]), "DisconnectNotification");
    assert_eq!(name(vec![7]), "7");
    assert_eq!(name(vec![123]), "123");
    assert_eq!(name(vec![83, 5, 0, 0, 0, 0, 0, 0]), "LoginResponse");
    assert_eq!(name(vec![83, 0, 0, 0, 0, 0, 0, 0]), "Handshake");
    assert_eq!(name(vec![83, 9, 0, 77, 0, 0, 0, 0]), "53-9-0-77");
    assert_eq!(name(vec![83, 1, 0, 5, 0, 0, 0, 0]), " 53-1-0-5");
    assert_eq!(name(vec![83, 5, 0]), "LU packet too short!");
}

fn disconnect_datagram() -> Vec<u8> {
    let mut w = BitWriter::new();
    w.write_bit(false);  // no acks
    w.write_bit(false);  // no remote clock
    let pkt = RaknetPacket {
        message_number: 0,
        rel_data: ReliabilityData::ReliableOrdered(0),
        split_packet_info: None,
        data: vec![MessageType::DisconnectNotification.id()],
    };
    pkt.serialize(&mut w);
    w.finish()
}

#[test]
fn disconnect_closes_connection() {
    let mut conn = Connection::new();
    let datagram = disconnect_datagram();
    let packets = conn.handle_datagram(&datagram).unwrap();
    assert_eq!(packets.len(), 0);
    assert!(conn.closed);
    let err = conn.send(vec![]).unwrap_err();
    assert_eq!(err, SendError::ConnectionClosed);
}

#[test]
fn reliable_packet_is_acknowledged() {
    let mut conn = Connection::new();
    let mut w = BitWriter::new();
    w.write_bit(false);
    w.write_bit(false);
    let pkt = RaknetPacket {
        message_number: 5,
        rel_data: ReliabilityData::ReliableOrdered(0),
        split_packet_info: None,
        data: vec![42],
    };
    pkt.serialize(&mut w);
    let datagram = w.finish();
    let packets = conn.handle_datagram(&datagram).unwrap();
    assert_eq!(packets.len(), 1);
    assert_eq!(packets[0].data, vec![42]);
    assert_eq!(conn.acks.len(), 1);
    // The pending acknowledgement rides out with the next send and is
    // then spent.
    let datagrams = conn.send(vec![]).unwrap();
    assert_eq!(datagrams.len(), 1);
    assert!(conn.acks.is_empty());
    let datagrams = conn.send(vec![]).unwrap();
    assert_eq!(datagrams.len(), 0);
}

#[test]
fn ack_only_datagram_is_parseable() {
    // An acknowledgement-only datagram carries no sub-packets and is
    // consumed silently by a peer connection.
    let mut a = Connection::new();
    let mut w = BitWriter::new();
    w.write_bit(false);
    w.write_bit(false);
    let pkt = RaknetPacket {
        message_number: 0,
        rel_data: ReliabilityData::Reliable,
        split_packet_info: None,
        data: vec![1],
    };
    pkt.serialize(&mut w);
    a.handle_datagram(&w.finish()).unwrap();
    assert_eq!(a.acks.len(), 1);
    let datagrams = a.send(vec![]).unwrap();
    assert_eq!(datagrams.len(), 1);
    let mut b = Connection::new();
    let packets = b.handle_datagram(&datagrams[0]).unwrap();
    assert_eq!(packets.len(), 0);
}

#[test]
fn outbound_datagram_round_trips() {
    // A packet sent by one connection's engine decodes on another.
    let mut a = Connection::new();
    let datagrams = a
        .send(vec![Packet { reliability: Reliability::ReliableOrdered, data: vec![1, 2, 3] }])
        .unwrap();
    assert_eq!(datagrams.len(), 1);
    let mut b = Connection::new();
    let packets = b.handle_datagram(&datagrams[0]).unwrap();
    assert_eq!(packets.len(), 1);
    assert_eq!(packets[0].reliability, Reliability::ReliableOrdered);
    assert_eq!(packets[0].data, vec![1, 2, 3]);
}
