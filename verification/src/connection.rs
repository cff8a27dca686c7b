//! One legacy connection: receive and send engines, the pending
//! acknowledgement set, and the peer's echoed clock value.
//!
//! Designed for loopback operation: there is no retransmission or
//! congestion control, only the classification, ordering and framing the
//! nearby client actually needs.

use vstd::prelude::*;

use crate::bitio::{bits_u32, bytes_bits, pad_to_byte, BitReader};
use crate::bridge::{Packet, PacketV};
use crate::packet::DecodeError;
use crate::rangelist::{parse_rangelist, ranges_contain, Range, RangeList};
use crate::recv::{
    has_reliable_msg, packet_views, parse_packet_list, process_seq, rak_views, recv_init,
    ReceivePart,
};
use crate::send::{acks_bits, datagram_bits, spec_process_out, SendPart};

verus! {

/// Why a send was refused.
#[derive(Clone, Copy, Debug, PartialEq, Eq, Structural)]
pub enum SendError {
    /// A disconnect notification has been received; the connection no
    /// longer accepts outbound packets.
    ConnectionClosed,
}

/// The datagram header: a has-acks flag with an ignored clock value and
/// acknowledgement list, then a has-remote-clock flag with the value to
/// echo back. Yields the clock value, if any, and the position where the
/// sub-packets start.
pub open spec fn parse_header(s: Seq<bool>) -> Option<(Option<u32>, int)> {
    if s.len() < 1 {
        None
    } else {
        let after_acks = if s[0] {
            if 33 <= s.len() {
                match parse_rangelist(s, 33) {
                    Some((_, p)) => Some(p),
                    None => None,
                }
            } else {
                None
            }
        } else {
            Some(1int)
        };
        match after_acks {
            None => None,
            Some(p1) => {
                if p1 < s.len() {
                    if s[p1] {
                        if p1 + 33 <= s.len() {
                            Some((Some(bits_u32(s, p1 + 1)), p1 + 33))
                        } else {
                            None
                        }
                    } else {
                        Some((None, p1 + 1))
                    }
                } else {
                    None
                }
            },
        }
    }
}

/// One legacy connection.
pub struct Connection {
    /// Set once a disconnect notification arrives; sends then fail.
    pub closed: bool,
    /// The peer's last clock value, echoed back with outbound acks.
    pub remote_system_time: u32,
    /// Message numbers awaiting acknowledgement to the peer.
    pub acks: RangeList,
    /// The receive engine.
    pub recv: ReceivePart,
    /// The send engine.
    pub send: SendPart,
}

impl Connection {
    /// The connection invariant: the acknowledgement set is well-formed.
    pub open spec fn wf(&self) -> bool {
        self.acks.wf()
    }

    pub fn new() -> (r: Connection)
        ensures
            r.wf(),
            !r.closed,
            r.remote_system_time == 0,
            r.acks@ == Seq::<Range>::empty(),
            r.recv@ == recv_init(),
            r.send == (SendPart {
                message_number: 0,
                split_packet_index: 0,
                unrel_seq_index: 0,
                rel_ord_index: 0,
            }),
    {
        Connection {
            closed: false,
            remote_system_time: 0,
            acks: RangeList::new(),
            recv: ReceivePart::default(),
            send: SendPart::new(),
        }
    }

    /// Handles one inbound datagram: consumes the header (keeping the
    /// peer's clock value), decodes the sub-packets, and runs them
    /// through the receive engine. Returns the packets to hand upward.
    pub fn handle_datagram(&mut self, data: &[u8]) -> (res: Result<Vec<Packet>, DecodeError>)
        requires
            old(self).wf(),
            8 * data@.len() + 64 <= usize::MAX,
        ensures
            final(self).wf(),
            final(self).send == old(self).send,
            match parse_header(bytes_bits(data@)) {
                None => res == Err::<Vec<Packet>, DecodeError>(DecodeError::Truncated)
                    && *final(self) == *old(self),
                Some((topt, p1)) => {
                    let rst = match topt {
                        Some(v) => v,
                        None => old(self).remote_system_time,
                    };
                    let (ps, fatal) = parse_packet_list(bytes_bits(data@), p1);
                    &&& final(self).remote_system_time == rst
                    &&& match fatal {
                        Some(e) => res == Err::<Vec<Packet>, DecodeError>(e),
                        None => match process_seq(old(self).recv@, old(self).closed, ps) {
                            None => res is Err,
                            Some((st, cl, out)) => {
                                &&& res matches Ok(v) && packet_views(v@) == out
                                &&& final(self).recv@ == st
                                &&& final(self).closed == cl
                                &&& forall|x: u32|
                                    #[trigger] ranges_contain(final(self).acks@, x) <==> (
                                    ranges_contain(old(self).acks@, x) || has_reliable_msg(ps, x))
                            },
                        },
                    }
                },
            },
    {
        let mut r = BitReader::new(data);
        let has_acks = match r.read_bit() {
            None => {
                return Err(DecodeError::Truncated);
            },
            Some(b) => b,
        };
        if has_acks {
            let _old_time = match r.read_u32() {
                None => {
                    return Err(DecodeError::Truncated);
                },
                Some(v) => v,
            };
            // The peer's acknowledgements are consumed and discarded:
            // nothing is retransmitted on a loopback link.
            match RangeList::deserialize(&mut r) {
                None => {
                    return Err(DecodeError::Truncated);
                },
                Some(_) => {},
            }
        }
        let has_remote_system_time = match r.read_bit() {
            None => {
                return Err(DecodeError::Truncated);
            },
            Some(b) => b,
        };
        if has_remote_system_time {
            self.remote_system_time = match r.read_u32() {
                None => {
                    return Err(DecodeError::Truncated);
                },
                Some(v) => v,
            };
        }
        let rak_packets = match ReceivePart::parse_packets(&mut r) {
            Err(e) => {
                return Err(e);
            },
            Ok(v) => v,
        };
        self.recv.process_incoming_packets(rak_packets, &mut self.acks, &mut self.closed)
    }

    /// Turns outbound packets into serialized datagrams, or refuses once
    /// the peer has disconnected. Pending acknowledgements ride along
    /// with the first datagram.
    pub fn send(&mut self, packets: Vec<Packet>) -> (res: Result<Vec<Vec<u8>>, SendError>)
        requires
            old(self).wf(),
            old(self).acks@.len() <= 0xffff,
            forall|i: int|
                0 <= i < packets@.len() ==> (#[trigger] packets@[i]).data@.len() <= u32::MAX,
        ensures
            final(self).wf(),
            old(self).closed ==> res == Err::<Vec<Vec<u8>>, SendError>(SendError::ConnectionClosed)
                && *final(self) == *old(self),
            !old(self).closed ==> {
                &&& res is Ok
                &&& final(self).send == spec_process_out(
                    old(self).send,
                    packet_views(packets@),
                ).0
                &&& final(self).closed == old(self).closed
                &&& final(self).remote_system_time == old(self).remote_system_time
                &&& final(self).recv == old(self).recv
                &&& ({
                    let rak = spec_process_out(old(self).send, packet_views(packets@)).1;
                    let t = old(self).remote_system_time;
                    match res {
                        Err(_) => false,
                        Ok(r) => if rak.len() == 0 {
                            &&& (old(self).acks@.len() == 0 ==> r@.len() == 0 && final(self).acks
                                == old(self).acks)
                            &&& (old(self).acks@.len() > 0 ==> r@.len() == 1 && bytes_bits(r@[0]@)
                                == pad_to_byte(acks_bits(old(self).acks@, t) + seq![false])
                                && final(self).acks@ == Seq::<Range>::empty())
                        } else {
                            &&& r@.len() == rak.len()
                            &&& final(self).acks@ == Seq::<Range>::empty()
                            &&& bytes_bits(r@[0]@) == pad_to_byte(
                                datagram_bits(rak[0], old(self).acks@, t),
                            )
                            &&& forall|i: int|
                                1 <= i < rak.len() ==> bytes_bits(#[trigger] r@[i]@)
                                    == pad_to_byte(
                                    datagram_bits(rak[i], Seq::<Range>::empty(), t),
                                )
                        },
                    }
                })
            },
    {
        if self.closed {
            return Err(SendError::ConnectionClosed);
        }
        Ok(self.send.send_packets(packets, &mut self.acks, self.remote_system_time))
    }
}

} // verus!
