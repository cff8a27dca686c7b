//! Abstract packet definitions shared by the two protocol engines, and the
//! payload scanner that rewrites embedded server addresses.

use vstd::prelude::*;
use vstd::utf8::{decode_utf8, valid_utf8};

use crate::fixstr::{first_null, has_null, ReadStr, StrError};

verus! {

/// Control messages of the legacy data-level protocol. Only those this
/// translator must handle are listed.
#[derive(Clone, Copy, Debug, PartialEq, Eq, Structural)]
pub enum MessageType {
    /// First message ever received: the client asks to open a connection.
    OpenConnectionRequest,
    /// We accept the client's request to open a connection.
    OpenConnectionReply,
    /// We refuse the client's request to open a connection.
    NoFreeIncomingConnections,
    /// The client has disconnected voluntarily.
    DisconnectNotification,
}

impl MessageType {
    /// The wire id of the control message.
    pub open spec fn spec_id(self) -> u8 {
        match self {
            MessageType::OpenConnectionRequest => 9,
            MessageType::OpenConnectionReply => 10,
            MessageType::NoFreeIncomingConnections => 18,
            MessageType::DisconnectNotification => 19,
        }
    }

    /// The wire id of the control message.
    pub fn id(self) -> (r: u8)
        ensures
            r == self.spec_id(),
    {
        match self {
            MessageType::OpenConnectionRequest => 9,
            MessageType::OpenConnectionReply => 10,
            MessageType::NoFreeIncomingConnections => 18,
            MessageType::DisconnectNotification => 19,
        }
    }
}

/// Reliability modes supported by the legacy protocol. A fifth mode
/// (reliable-sequenced) exists in the wild but is never used in practice,
/// so it is omitted entirely.
#[derive(Clone, Copy, Debug, PartialEq, Eq, Structural)]
pub enum Reliability {
    /// Neither guaranteed to arrive nor to arrive in order.
    Unreliable,
    /// Not guaranteed to arrive. Out of newer and older packets, only the
    /// newer one is delivered; stragglers are dropped.
    UnreliableSequenced,
    /// Guaranteed to arrive at some point, in no particular order.
    Reliable,
    /// Guaranteed to arrive, in the order the packets were sent.
    ReliableOrdered,
}

/// Packet data and reliability: what the engines accept for sending and
/// hand back on receiving.
pub struct Packet {
    pub reliability: Reliability,
    pub data: Vec<u8>,
}

/// The mathematical shadow of a `Packet`.
pub struct PacketV {
    pub reliability: Reliability,
    pub data: Seq<u8>,
}

impl View for Packet {
    type V = PacketV;

    open spec fn view(&self) -> PacketV {
        PacketV { reliability: self.reliability, data: self.data@ }
    }
}


/// The 1-to-1 pairing of one legacy connection with one modern
/// connection, for a single client.
pub struct Bridge {
    pub raknet: crate::connection::Connection,
    pub tcpudp: crate::tcpudp::Connection,
}

impl Bridge {
    /// Creates a new bridge from an existing pair of connections.
    pub fn new(raknet: crate::connection::Connection, tcpudp: crate::tcpudp::Connection) -> (r:
        Bridge)
        ensures
            r.raknet == raknet,
            r.tcpudp == tcpudp,
    {
        Bridge { raknet, tcpudp }
    }
}

/// Where the payload scanner finds an embedded server address: the
/// 33-byte host field offset and the port offset. Only two packets of
/// the application protocol embed addresses: the login response
/// (subtype 0, success flag set, long enough) and the redirect
/// (subtype 14).
pub open spec fn scan_case(b: Seq<u8>) -> Option<(int, int)> {
    if b.len() > 8 && b[0] == 83 && b[1] == 5 {
        if b[3] == 0 {
            if b[8] == 1 && b.len() > 413 {
                Some((345int, 411int))
            } else {
                None
            }
        } else if b[3] == 14 {
            Some((8int, 41int))
        } else {
            None
        }
    } else {
        None
    }
}

/// The little-endian `u16` at byte offset `i`.
pub open spec fn le16_at(b: Seq<u8>, i: int) -> u16 {
    (b[i] as u16) | ((b[i + 1] as u16) << 8)
}

/// An embedded server address found by the scanner, with the offsets
/// where the rewrite must happen.
pub struct ScanHit {
    pub host: String,
    pub port: u16,
    pub host_off: usize,
    pub port_off: usize,
}

/// Scans one packet for an embedded server address. Packets that do not
/// carry one pass through untouched (`Ok(None)`); a recognized packet
/// whose address field is malformed is an error, which tears the bridge
/// down one level up.
pub fn scan_packet(data: &Vec<u8>) -> (r: Result<Option<ScanHit>, StrError>)
    ensures
        match scan_case(data@) {
            None => r matches Ok(o) && o is None,
            Some((ho, po)) => {
                if po + 2 > data@.len() {
                    r == Err::<Option<ScanHit>, StrError>(StrError::Truncated)
                } else {
                    let field = data@.subrange(ho, ho + 33);
                    let prefix = field.take(first_null(field));
                    if !has_null(field) {
                        r == Err::<Option<ScanHit>, StrError>(StrError::NoTerminator)
                    } else if !valid_utf8(prefix) {
                        r == Err::<Option<ScanHit>, StrError>(StrError::NotUtf8)
                    } else {
                        r matches Ok(o) && o matches Some(h) && h.host@ == decode_utf8(prefix)
                            && h.port == le16_at(data@, po) && h.host_off == ho && h.port_off == po
                    }
                }
            },
        },
{
    if data.len() > 8 && data[0] == 83 && data[1] == 5 {
        let host_off: usize;
        let port_off: usize;
        if data[3] == 0 {
            if data[8] == 1 && data.len() > 413 {
                host_off = 345;
                port_off = 411;
            } else {
                return Ok(None);
            }
        } else if data[3] == 14 {
            host_off = 8;
            port_off = 41;
        } else {
            return Ok(None);
        }
        if port_off + 2 > data.len() {
            return Err(StrError::Truncated);
        }
        let host = match data.as_slice().read_fix(host_off) {
            Err(e) => {
                return Err(e);
            },
            Ok(h) => h,
        };
        let port = (data[port_off] as u16) | ((data[port_off + 1] as u16) << 8);
        Ok(Some(ScanHit { host, port, host_off, port_off }))
    } else {
        Ok(None)
    }
}

/// The rewritten 33-byte host field: the loopback address, zero padded.
pub open spec fn loopback_field() -> Seq<u8> {
    seq![49u8, 50u8, 55u8, 46u8, 48u8, 46u8, 48u8, 46u8, 49u8] + Seq::new(24, |i: int| 0u8)
}

/// Overwrites the embedded address in place: the host field becomes the
/// loopback address and the port becomes `port`, little-endian; nothing
/// else moves.
pub fn rewrite_address(data: &mut Vec<u8>, host_off: usize, port_off: usize, port: u16)
    requires
        port_off + 2 <= old(data)@.len(),
        host_off + 33 <= port_off,
    ensures
        final(data)@.len() == old(data)@.len(),
        final(data)@.subrange(host_off as int, host_off + 33) == loopback_field(),
        final(data)@.subrange(port_off as int, port_off + 2) == seq![
            (port & 0xff) as u8,
            ((port >> 8) & 0xff) as u8,
        ],
        le16_at(final(data)@, port_off as int) == port,
        forall|i: int|
            0 <= i < old(data)@.len() && !(host_off <= i < host_off + 33) && !(port_off <= i
                < port_off + 2) ==> final(data)@[i] == old(data)@[i],
{
    let mut field: Vec<u8> = Vec::new();
    field.push(49);
    field.push(50);
    field.push(55);
    field.push(46);
    field.push(48);
    field.push(46);
    field.push(48);
    field.push(46);
    field.push(49);
    let mut k: usize = 9;
    while k < 33
        invariant
            9 <= k <= 33,
            field@.len() == k,
            field@ == loopback_field().take(k as int),
        decreases 33 - k,
    {
        field.push(0);
        proof {
            assert(loopback_field().take(k as int).push(0u8) =~= loopback_field().take(
                k as int + 1,
            ));
        }
        k = k + 1;
    }
    proof {
        assert(loopback_field().take(33) =~= loopback_field());
    }
    let ghost d0 = data@;
    let mut j: usize = 0;
    while j < 33
        invariant
            j <= 33,
            port_off + 2 <= data@.len(),
            host_off + 33 <= port_off,
            data@.len() == d0.len(),
            field@ == loopback_field(),
            forall|i: int| host_off <= i < host_off + j ==> data@[i] == loopback_field()[i
                - host_off],
            forall|i: int|
                0 <= i < d0.len() && !(host_off <= i < host_off + j) ==> data@[i] == d0[i],
        decreases 33 - j,
    {
        data[host_off + j] = field[j];
        j = j + 1;
    }
    let n = data.len();
    proof {
        assert(port_off + 2 <= n);
    }
    data[port_off] = (port & 0xff) as u8;
    data[port_off + 1] = ((port >> 8) & 0xff) as u8;
    proof {
        assert(data@.subrange(host_off as int, host_off + 33) =~= loopback_field());
        assert(data@.subrange(port_off as int, port_off + 2) =~= seq![
            (port & 0xff) as u8,
            ((port >> 8) & 0xff) as u8,
        ]);
        assert((((port & 0xff) as u8 as u16) | ((((port >> 8) & 0xff) as u8 as u16) << 8))
            == port) by (bit_vector);
    }
}

/// What the demultiplexer does with one inbound datagram from the
/// legacy side.
#[derive(Clone, Copy, Debug, PartialEq, Eq, Structural)]
pub enum DispatchAction {
    /// An unknown sender that is not asking to connect: drop silently.
    Ignore,
    /// A known sender: hand the datagram to its bridge.
    HandleKnown,
    /// An unknown sender asking to open a connection: try to build a
    /// bridge and answer with `connection_reply`.
    OfferConnection,
}

/// The dispatch rule: known senders are always handled; an unknown
/// sender is considered only when its datagram is a one- or two-byte
/// open-connection request.
pub fn classify_raknet_datagram(known_source: bool, data: &[u8]) -> (r: DispatchAction)
    ensures
        known_source ==> r == DispatchAction::HandleKnown,
        !known_source ==> r == (if 1 <= data@.len() <= 2 && data@[0]
            == MessageType::OpenConnectionRequest.spec_id() {
            DispatchAction::OfferConnection
        } else {
            DispatchAction::Ignore
        }),
{
    if known_source {
        DispatchAction::HandleKnown
    } else if data.len() >= 1 && data.len() <= 2 && data[0] == MessageType::OpenConnectionRequest.id() {
        DispatchAction::OfferConnection
    } else {
        DispatchAction::Ignore
    }
}

/// The two-byte control reply to an open-connection request: acceptance
/// or refusal, then a zero.
pub fn connection_reply(accepted: bool) -> (r: Vec<u8>)
    ensures
        r@ == seq![
            (if accepted {
                MessageType::OpenConnectionReply
            } else {
                MessageType::NoFreeIncomingConnections
            }).spec_id(),
            0u8,
        ],
{
    let mut r: Vec<u8> = Vec::new();
    if accepted {
        r.push(MessageType::OpenConnectionReply.id());
    } else {
        r.push(MessageType::NoFreeIncomingConnections.id());
    }
    r.push(0);
    proof {
        assert(r@ =~= seq![
            (if accepted {
                MessageType::OpenConnectionReply
            } else {
                MessageType::NoFreeIncomingConnections
            }).spec_id(),
            0u8,
        ]);
    }
    r
}

} // verus!
