//! The modern protocol engine: stream framing with partial reads, tagged
//! datagrams, and sequence filtering.

use rakshim::bridge::{Packet, Reliability};
use rakshim::tcpudp::{Connection, Lane};

#[test]
fn recv_whole() {
    let mut client = Connection::new();
    // u32 length 4, then the u16 values 1 and 2.
    let packets = client.receive_tcp_bytes(b"\x04\x00\x00\x00\x01\x00\x02\x00");
    assert_eq!(packets[0].reliability, Reliability::ReliableOrdered);
    assert_eq!(&*packets[0].data, b"\x01\x00\x02\x00");
}

#[test]
fn recv_partial_len_before() {
    let mut client = Connection::new();
    let packets = client.receive_tcp_bytes(b"\x01\x00");
    assert_eq!(packets.len(), 0);
    let packets = client.receive_tcp_bytes(b"\x00\x00");
    assert_eq!(packets.len(), 0);
    let packets = client.receive_tcp_bytes(b"\x00");
    assert_eq!(packets.len(), 1);
    assert_eq!(packets[0].data.len(), 1);
}

#[test]
fn recv_partial_len_after() {
    let mut client = Connection::new();
    // A complete one-byte frame, then the first half of the next length.
    let packets = client.receive_tcp_bytes(b"\x01\x00\x00\x00\x00\x01\x00");
    assert_eq!(packets.len(), 1);
    let packets = client.receive_tcp_bytes(b"\x00\x00");
    assert_eq!(packets.len(), 0);
    let packets = client.receive_tcp_bytes(b"\x00");
    assert_eq!(packets.len(), 1);
    assert_eq!(packets[0].data.len(), 1);
}

#[test]
fn recv_partial_data() {
    let mut client = Connection::new();
    let packets = client.receive_tcp_bytes(b"\x04\x00\x00\x00\x01\x00");
    assert_eq!(packets.len(), 0);
    let packets = client.receive_tcp_bytes(b"\x02\x00");
    assert_eq!(packets.len(), 1);
    assert_eq!(&*packets[0].data, b"\x01\x00\x02\x00");
}

#[test]
fn recv_zero_length_frame() {
    let mut client = Connection::new();
    let packets = client.receive_tcp_bytes(b"\x00\x00\x00\x00");
    assert_eq!(packets.len(), 1);
    assert_eq!(packets[0].data.len(), 0);
}

#[test]
fn send_ok() {
    let mut client = Connection::new();
    let packets = vec![Packet { reliability: Reliability::ReliableOrdered, data: vec![42] }];
    let out = client.send(packets);
    assert_eq!(out.len(), 1);
    assert_eq!(out[0].lane, Lane::Tcp);
    // The length prefix reads back as u32 1, then the byte 42.
    assert_eq!(out[0].bytes, b"\x01\x00\x00\x00\x2a");
}

#[test]
fn recv_unrel() {
    let mut client = Connection::new();
    let packet = client.receive_udp_datagram(b"\x00hello").unwrap().unwrap();
    assert_eq!(packet.reliability, Reliability::Unreliable);
    assert_eq!(&*packet.data, b"hello");
}

#[test]
fn recv_unrel_seq() {
    let mut client = Connection::new();
    let packet = client.receive_udp_datagram(b"\x01\x00\x00\x00\x00hello").unwrap().unwrap();
    assert_eq!(packet.reliability, Reliability::UnreliableSequenced);
    assert_eq!(&*packet.data, b"hello");
}

#[test]
fn recv_unrel_seq_out_of_order() {
    let mut client = Connection::new();
    client.seq_num_recv = 1;
    let r = client.receive_udp_datagram(b"\x01\x00\x00\x00\x00hello").unwrap();
    assert!(r.is_none());
}

#[test]
fn recv_unrel_seq_overflow() {
    let mut client = Connection::new();
    client.seq_num_recv = u32::MAX;
    let packet = client.receive_udp_datagram(b"\x01\xff\xff\xff\xffhello").unwrap().unwrap();
    assert_eq!(packet.reliability, Reliability::UnreliableSequenced);
    assert_eq!(&*packet.data, b"hello");
}

#[test]
fn recv_unrel_seq_wrap() {
    let mut client = Connection::new();
    client.seq_num_recv = u32::MAX;
    let packet = client.receive_udp_datagram(b"\x01\x00\x00\x00\x00hello").unwrap().unwrap();
    assert_eq!(packet.reliability, Reliability::UnreliableSequenced);
    assert_eq!(&*packet.data, b"hello");
}

#[test]
fn recv_udp_bad_tag() {
    let mut client = Connection::new();
    assert!(client.receive_udp_datagram(b"\x07hello").is_err());
}

#[test]
fn recv_udp_truncated() {
    let mut client = Connection::new();
    assert!(client.receive_udp_datagram(b"").is_err());
    assert!(client.receive_udp_datagram(b"\x01\x00\x00").is_err());
}

#[test]
fn send_unrel() {
    let mut client = Connection::new();
    let packets = vec![Packet { reliability: Reliability::Unreliable, data: b"hello".to_vec() }];
    let out = client.send(packets);
    assert_eq!(out[0].lane, Lane::Udp);
    assert_eq!(out[0].bytes, b"\x00hello");
}

#[test]
fn send_unrel_seq() {
    let mut client = Connection::new();
    client.seq_num_send = u32::MAX;
    let packets = vec![Packet {
        reliability: Reliability::UnreliableSequenced,
        data: b"hello".to_vec(),
    }];
    let out = client.send(packets);
    assert_eq!(out[0].lane, Lane::Udp);
    assert_eq!(out[0].bytes, b"\x01\xff\xff\xff\xffhello");
    // The counter wrapped.
    assert_eq!(client.seq_num_send, 0);
}
