//! The modern protocol engine.
//!
//! Reliable packets travel as `{u32 little-endian length, bytes}` frames
//! over one ordered byte stream; unreliable packets travel as tagged
//! datagrams (`0x00 || payload`, or `0x01 || u32 LE sequence || payload`)
//! with stale-datagram filtering. This module holds the framing state
//! machines; the sockets that carry the bytes live outside the crate.

use vstd::prelude::*;
use vstd::bytes::{spec_u32_from_le_bytes, spec_u32_to_le_bytes, u32_from_le_bytes, u32_to_le_bytes};

use crate::bridge::{Packet, PacketV, Reliability};
use crate::recv::{in_window, packet_views, wrap_inc};

verus! {

/// Why an unreliable datagram was refused.
#[derive(Clone, Copy, Debug, PartialEq, Eq, Structural)]
pub enum UdpRecvError {
    /// The datagram ended in the middle of a field.
    Truncated,
    /// A leading tag byte other than the two defined ones.
    BadTag,
}

/// Which transport a serialized message must travel on.
#[derive(Clone, Copy, Debug, PartialEq, Eq, Structural)]
pub enum Lane {
    /// The ordered byte stream.
    Tcp,
    /// The datagram socket.
    Udp,
}

/// One serialized outbound message and the transport it belongs on.
pub struct Outgoing {
    pub lane: Lane,
    pub bytes: Vec<u8>,
}

/// The mathematical shadow of an `Outgoing`.
pub struct OutgoingV {
    pub lane: Lane,
    pub bytes: Seq<u8>,
}

impl View for Outgoing {
    type V = OutgoingV;

    open spec fn view(&self) -> OutgoingV {
        OutgoingV { lane: self.lane, bytes: self.bytes@ }
    }
}

/// The shadows of a batch of outbound messages.
pub open spec fn outgoing_views(ps: Seq<Outgoing>) -> Seq<OutgoingV> {
    ps.map_values(|p: Outgoing| p@)
}

/// Greedy frame extraction: every complete `{length, body}` frame at the
/// front of the stream, and the unconsumed remainder.
pub open spec fn frames_of(stream: Seq<u8>) -> (Seq<Seq<u8>>, Seq<u8>)
    decreases stream.len(),
{
    if stream.len() >= 4 {
        let n = spec_u32_from_le_bytes(stream.subrange(0, 4)) as int;
        if stream.len() >= 4 + n {
            let r = frames_of(stream.skip(4 + n));
            (seq![stream.subrange(4, 4 + n)] + r.0, r.1)
        } else {
            (Seq::empty(), stream)
        }
    } else {
        (Seq::empty(), stream)
    }
}

/// A stream too short to contain one whole frame is all remainder.
pub proof fn lemma_frames_of_incomplete(stream: Seq<u8>)
    requires
        stream.len() < 4 || stream.len() < 4 + spec_u32_from_le_bytes(stream.subrange(0, 4)),
    ensures
        frames_of(stream) == (Seq::<Seq<u8>>::empty(), stream),
{
}

/// Buffer for a frame that has only arrived in part.
pub struct BufferOffset {
    /// True while the four length bytes are still being collected.
    pub reading_length: bool,
    /// How many bytes of the current phase have arrived.
    pub offset: usize,
    /// The four length-prefix bytes.
    pub length: Vec<u8>,
    /// The frame body, allocated once the length is known.
    pub buffer: Vec<u8>,
}

impl BufferOffset {
    /// The bytes accepted from the stream but not yet emitted as a frame.
    pub open spec fn pending(&self) -> Seq<u8> {
        if self.reading_length {
            self.length@.take(self.offset as int)
        } else {
            self.length@ + self.buffer@.take(self.offset as int)
        }
    }

    /// At rest the cursor always sits strictly inside a frame, so the
    /// pending bytes never contain a complete frame.
    pub open spec fn wf(&self) -> bool {
        &&& self.length@.len() == 4
        &&& if self.reading_length {
            self.offset < 4
        } else {
            self.offset < self.buffer@.len() && self.buffer@.len() == spec_u32_from_le_bytes(
                self.length@,
            )
        }
    }
}

/// One modern-protocol connection: the two sequence counters and the
/// partial-frame cursor. The sockets live with the caller.
pub struct Connection {
    /// Next expected inbound sequence number.
    pub seq_num_recv: u32,
    /// Next outbound sequence number.
    pub seq_num_send: u32,
    /// The resumable inbound frame cursor.
    pub packet: BufferOffset,
}

impl Connection {
    pub open spec fn wf(&self) -> bool {
        self.packet.wf()
    }

    pub fn new() -> (r: Connection)
        ensures
            r.wf(),
            r.seq_num_recv == 0,
            r.seq_num_send == 0,
            r.packet.pending() == Seq::<u8>::empty(),
    {
        let mut length: Vec<u8> = Vec::new();
        length.push(0);
        length.push(0);
        length.push(0);
        length.push(0);
        let r = Connection {
            seq_num_recv: 0,
            seq_num_send: 0,
            packet: BufferOffset { reading_length: true, offset: 0, length, buffer: Vec::new() },
        };
        proof {
            assert(r.packet.pending() =~= Seq::<u8>::empty());
        }
        r
    }

    /// Serializes a batch of packets: unreliable ones become tagged
    /// datagrams (sequenced ones consuming the outbound counter), both
    /// reliable modes become length-prefixed stream frames.
    #[verifier::loop_isolation(false)]
    pub fn send(&mut self, packets: Vec<Packet>) -> (r: Vec<Outgoing>)
        requires
            forall|i: int|
                0 <= i < packets@.len() ==> (#[trigger] packets@[i]).data@.len() <= u32::MAX,
        ensures
            final(self).seq_num_recv == old(self).seq_num_recv,
            final(self).packet == old(self).packet,
            ({
                let f = spec_send(old(self).seq_num_send, packet_views(packets@));
                final(self).seq_num_send == f.0 && outgoing_views(r@) == f.1
            }),
    {
        let ghost s0 = self.seq_num_send;
        let ghost fullv = packet_views(packets@);
        let mut input = packets;
        let mut out: Vec<Outgoing> = Vec::new();
        proof {
            let f = spec_send(s0, fullv);
            assert(outgoing_views(out@) + spec_send(self.seq_num_send, packet_views(input@)).1
                =~= f.1);
        }
        while input.len() > 0
            invariant
                forall|i: int|
                    0 <= i < input@.len() ==> (#[trigger] input@[i]).data@.len() <= u32::MAX,
                self.seq_num_recv == old(self).seq_num_recv,
                self.packet == old(self).packet,
                spec_send(s0, fullv).0 == spec_send(self.seq_num_send, packet_views(input@)).0,
                spec_send(s0, fullv).1 == outgoing_views(out@) + spec_send(
                    self.seq_num_send,
                    packet_views(input@),
                ).1,
            decreases input.len(),
        {
            let ghost input_pre = input@;
            let ghost out_top = out@;
            let ghost s_top = self.seq_num_send;
            let p = input.remove(0);
            let ghost pv = p@;
            proof {
                assert(packet_views(input_pre)[0] == pv);
                assert(packet_views(input_pre).drop_first() =~= packet_views(input@));
                assert(packet_views(input_pre) =~= seq![pv] + packet_views(input@));
            }
            let Packet { reliability, data } = p;
            let item: Outgoing;
            match reliability {
                Reliability::Unreliable => {
                    let mut bytes: Vec<u8> = Vec::new();
                    bytes.push(0);
                    let mut body = data;
                    bytes.append(&mut body);
                    proof {
                        assert(bytes@ =~= seq![0u8] + pv.data);
                    }
                    item = Outgoing { lane: Lane::Udp, bytes };
                },
                Reliability::UnreliableSequenced => {
                    let seq_num = self.seq_num_send;
                    self.seq_num_send = if self.seq_num_send == 0xffff_ffff {
                        0
                    } else {
                        self.seq_num_send + 1
                    };
                    let mut bytes: Vec<u8> = Vec::new();
                    bytes.push(1);
                    let mut sn = u32_to_le_bytes(seq_num);
                    bytes.append(&mut sn);
                    let mut body = data;
                    bytes.append(&mut body);
                    proof {
                        assert(bytes@ =~= seq![1u8] + spec_u32_to_le_bytes(seq_num) + pv.data);
                    }
                    item = Outgoing { lane: Lane::Udp, bytes };
                },
                _ => {
                    let mut bytes = u32_to_le_bytes(data.len() as u32);
                    let mut body = data;
                    bytes.append(&mut body);
                    proof {
                        assert(bytes@ =~= spec_u32_to_le_bytes(pv.data.len() as u32) + pv.data);
                    }
                    item = Outgoing { lane: Lane::Tcp, bytes };
                },
            }
            let ghost itemv = item@;
            out.push(item);
            proof {
                assert(spec_send_one(s_top, pv) == (self.seq_num_send, itemv));
                assert(outgoing_views(out@) =~= outgoing_views(out_top).push(itemv));
                assert(outgoing_views(out_top).push(itemv) =~= outgoing_views(out_top) + seq![
                    itemv,
                ]);
                assert(outgoing_views(out_top) + (seq![itemv] + spec_send(
                    self.seq_num_send,
                    packet_views(input@),
                ).1) =~= (outgoing_views(out_top) + seq![itemv]) + spec_send(
                    self.seq_num_send,
                    packet_views(input@),
                ).1);
            }
        }
        proof {
            assert(packet_views(input@) =~= Seq::<PacketV>::empty());
            assert(outgoing_views(out@) + Seq::<OutgoingV>::empty() =~= outgoing_views(out@));
        }
        out
    }

    /// Handles one inbound datagram: tag `0x00` delivers an unreliable
    /// packet; tag `0x01` carries a sequence number and is delivered
    /// only when it falls in the forward window, advancing the expected
    /// sequence; stale datagrams yield `None`.
    pub fn receive_udp_datagram(&mut self, data: &[u8]) -> (res: Result<
        Option<Packet>,
        UdpRecvError,
    >)
        ensures
            final(self).seq_num_send == old(self).seq_num_send,
            final(self).packet == old(self).packet,
            data@.len() == 0 ==> res == Err::<Option<Packet>, UdpRecvError>(UdpRecvError::Truncated)
                && *final(self) == *old(self),
            data@.len() >= 1 && data@[0] == 0 ==> (res matches Ok(o) && o matches Some(pk) && pk@
                == (PacketV {
                reliability: Reliability::Unreliable,
                data: data@.skip(1),
            })) && *final(self) == *old(self),
            data@.len() >= 1 && data@[0] == 1 && data@.len() < 5 ==> res == Err::<
                Option<Packet>,
                UdpRecvError,
            >(UdpRecvError::Truncated) && *final(self) == *old(self),
            data@.len() >= 5 && data@[0] == 1 ==> {
                let seq = spec_u32_from_le_bytes(data@.subrange(1, 5));
                if in_window(seq, old(self).seq_num_recv) {
                    &&& res matches Ok(o) && o matches Some(pk) && pk@ == (PacketV {
                        reliability: Reliability::UnreliableSequenced,
                        data: data@.skip(5),
                    })
                    &&& final(self).seq_num_recv == wrap_inc(seq)
                } else {
                    res == Ok::<Option<Packet>, UdpRecvError>(None) && *final(self) == *old(self)
                }
            },
            data@.len() >= 1 && data@[0] != 0 && data@[0] != 1 ==> res == Err::<
                Option<Packet>,
                UdpRecvError,
            >(UdpRecvError::BadTag) && *final(self) == *old(self),
    {
        if data.len() == 0 {
            return Err(UdpRecvError::Truncated);
        }
        let tag = data[0];
        if tag == 0 {
            let body = slice_suffix(data, 1);
            Ok(Some(Packet { reliability: Reliability::Unreliable, data: body }))
        } else if tag == 1 {
            if data.len() < 5 {
                return Err(UdpRecvError::Truncated);
            }
            let sn = slice_range(data, 1, 5);
            let seq_num = u32_from_le_bytes(sn.as_slice());
            let delta: u64 = if seq_num >= self.seq_num_recv {
                (seq_num - self.seq_num_recv) as u64
            } else {
                seq_num as u64 + 0x1_0000_0000u64 - self.seq_num_recv as u64
            };
            if delta < 0x8000_0000 {
                self.seq_num_recv = if seq_num == 0xffff_ffff {
                    0
                } else {
                    seq_num + 1
                };
                let body = slice_suffix(data, 5);
                Ok(Some(Packet { reliability: Reliability::UnreliableSequenced, data: body }))
            } else {
                Ok(None)
            }
        } else {
            Err(UdpRecvError::BadTag)
        }
    }

    /// Feeds stream bytes into the frame cursor and returns every frame
    /// they complete, each as a reliable-ordered packet. Partial frames
    /// stay in the cursor for the next call.
    #[verifier::loop_isolation(false)]
    #[verifier::rlimit(60)]
    pub fn receive_tcp_bytes(&mut self, chunk: &[u8]) -> (r: Vec<Packet>)
        requires
            old(self).wf(),
        ensures
            final(self).wf(),
            final(self).seq_num_recv == old(self).seq_num_recv,
            final(self).seq_num_send == old(self).seq_num_send,
            ({
                let f = frames_of(old(self).packet.pending() + chunk@);
                packet_views(r@) == f.0.map_values(
                    |d: Seq<u8>| PacketV { reliability: Reliability::ReliableOrdered, data: d },
                ) && final(self).packet.pending() == f.1
            }),
    {
        let ghost stream0 = self.packet.pending() + chunk@;
        let mut out: Vec<Packet> = Vec::new();
        let mut i: usize = 0;
        proof {
            assert(self.packet.pending() + chunk@.skip(0) =~= stream0);
            let f = frames_of(stream0);
            assert(datas_of(out@) + f.0 =~= f.0);
        }
        loop
            invariant
                self.packet.wf(),
                self.seq_num_recv == old(self).seq_num_recv,
                self.seq_num_send == old(self).seq_num_send,
                i <= chunk@.len(),
                frames_of(stream0).0 == datas_of(out@) + frames_of(
                    self.packet.pending() + chunk@.skip(i as int),
                ).0,
                frames_of(stream0).1 == frames_of(self.packet.pending() + chunk@.skip(i as int)).1,
                forall|k: int|
                    0 <= k < out@.len() ==> (#[trigger] out@[k]).reliability
                        == Reliability::ReliableOrdered,
            decreases self.packet.pending().len() + chunk@.len() - i,
        {
            let ghost pend_top = self.packet.pending();
            let ghost i_top = i as int;
            if self.packet.reading_length {
                while self.packet.offset < 4 && i < chunk.len()
                    invariant
                        self.packet.reading_length,
                        self.packet.length@.len() == 4,
                        self.packet.offset <= 4,
                        i <= chunk@.len(),
                        self.seq_num_recv == old(self).seq_num_recv,
                        self.seq_num_send == old(self).seq_num_send,
                        self.packet.pending() + chunk@.skip(i as int) == pend_top + chunk@.skip(
                            i_top,
                        ),
                    decreases 4 - self.packet.offset,
                {
                    let b = chunk[i];
                    let off = self.packet.offset;
                    self.packet.length[off] = b;
                    self.packet.offset = off + 1;
                    i = i + 1;
                    proof {
                        assert(self.packet.pending() + chunk@.skip(i as int) =~= pend_top
                            + chunk@.skip(i_top));
                    }
                }
                if self.packet.offset < 4 {
                    proof {
                        assert(i == chunk@.len());
                        assert(chunk@.skip(i as int) =~= Seq::<u8>::empty());
                        assert(self.packet.pending() + chunk@.skip(i as int)
                            =~= self.packet.pending());
                        lemma_frames_of_incomplete(self.packet.pending());
                        assert(packet_views(out@) =~= frames_of(stream0).0.map_values(
                            |d: Seq<u8>|
                                PacketV { reliability: Reliability::ReliableOrdered, data: d },
                        ));
                    }
                    return out;
                }
                let n = u32_from_le_bytes(self.packet.length.as_slice());
                proof {
                    assert(self.packet.length@.take(4) =~= self.packet.length@);
                }
                let mut buffer: Vec<u8> = alloc_zeroed(n as usize);
                core::mem::swap(&mut self.packet.buffer, &mut buffer);
                self.packet.reading_length = false;
                self.packet.offset = 0;
                proof {
                    assert(self.packet.buffer@.take(0) =~= Seq::<u8>::empty());
                    assert(self.packet.pending() + chunk@.skip(i as int) =~= pend_top + chunk@.skip(
                        i_top,
                    ));
                }
            }
            let ghost pend_mid = self.packet.pending();
            let ghost i_mid = i as int;
            while self.packet.offset < self.packet.buffer.len() && i < chunk.len()
                invariant
                    !self.packet.reading_length,
                    self.packet.length@.len() == 4,
                    self.packet.offset <= self.packet.buffer@.len(),
                    self.packet.buffer@.len() == spec_u32_from_le_bytes(self.packet.length@),
                    i <= chunk@.len(),
                    self.seq_num_recv == old(self).seq_num_recv,
                    self.seq_num_send == old(self).seq_num_send,
                    self.packet.pending() + chunk@.skip(i as int) == pend_mid + chunk@.skip(i_mid),
                decreases self.packet.buffer@.len() - self.packet.offset,
            {
                let b = chunk[i];
                let off = self.packet.offset;
                self.packet.buffer[off] = b;
                self.packet.offset = off + 1;
                i = i + 1;
                proof {
                    assert(self.packet.pending() + chunk@.skip(i as int) =~= pend_mid + chunk@.skip(
                        i_mid,
                    ));
                }
            }
            if self.packet.offset < self.packet.buffer.len() {
                proof {
                    assert(i == chunk@.len());
                    assert(chunk@.skip(i as int) =~= Seq::<u8>::empty());
                    assert(self.packet.pending() + chunk@.skip(i as int)
                        =~= self.packet.pending());
                    assert(self.packet.pending().subrange(0, 4) =~= self.packet.length@);
                    lemma_frames_of_incomplete(self.packet.pending());
                    assert(packet_views(out@) =~= frames_of(stream0).0.map_values(
                        |d: Seq<u8>|
                            PacketV { reliability: Reliability::ReliableOrdered, data: d },
                    ));
                }
                return out;
            }
            // A whole frame is in hand: emit it and restart the cursor.
            let mut body: Vec<u8> = Vec::new();
            core::mem::swap(&mut self.packet.buffer, &mut body);
            self.packet.reading_length = true;
            self.packet.offset = 0;
            let ghost out_pre = out@;
            let ghost bodyv = body@;
            out.push(Packet { reliability: Reliability::ReliableOrdered, data: body });
            proof {
                let stream_mid = pend_mid + chunk@.skip(i_mid);
                assert(stream_mid.subrange(0, 4) =~= self.packet.length@);
                assert(bodyv.take(bodyv.len() as int) =~= bodyv);
                assert(stream_mid.len() >= 4 + bodyv.len());
                assert(stream_mid.subrange(4, 4 + bodyv.len() as int) =~= bodyv);
                assert(stream_mid.skip(4 + bodyv.len() as int) =~= self.packet.pending() + chunk@.skip(
                    i as int,
                ));
                assert(frames_of(stream_mid).0 == seq![bodyv] + frames_of(
                    self.packet.pending() + chunk@.skip(i as int),
                ).0);
                assert(datas_of(out@) =~= datas_of(out_pre).push(bodyv));
                assert(datas_of(out_pre).push(bodyv) + frames_of(
                    self.packet.pending() + chunk@.skip(i as int),
                ).0 =~= datas_of(out_pre) + (seq![bodyv] + frames_of(
                    self.packet.pending() + chunk@.skip(i as int),
                ).0));
            }
        }
    }
}

/// The payloads of delivered frame packets.
pub open spec fn datas_of(ps: Seq<Packet>) -> Seq<Seq<u8>> {
    ps.map_values(|p: Packet| p@.data)
}

/// What one outbound packet becomes on the wire.
pub open spec fn spec_send_one(seq_num_send: u32, p: PacketV) -> (u32, OutgoingV) {
    match p.reliability {
        Reliability::Unreliable => (
            seq_num_send,
            OutgoingV { lane: Lane::Udp, bytes: seq![0u8] + p.data },
        ),
        Reliability::UnreliableSequenced => (
            wrap_inc(seq_num_send),
            OutgoingV {
                lane: Lane::Udp,
                bytes: seq![1u8] + spec_u32_to_le_bytes(seq_num_send) + p.data,
            },
        ),
        _ => (
            seq_num_send,
            OutgoingV {
                lane: Lane::Tcp,
                bytes: spec_u32_to_le_bytes(p.data.len() as u32) + p.data,
            },
        ),
    }
}

/// A batch of outbound packets folded through `spec_send_one`.
pub open spec fn spec_send(seq_num_send: u32, ps: Seq<PacketV>) -> (u32, Seq<OutgoingV>)
    decreases ps.len(),
{
    if ps.len() == 0 {
        (seq_num_send, Seq::empty())
    } else {
        let (s1, o1) = spec_send_one(seq_num_send, ps[0]);
        let (s2, o2) = spec_send(s1, ps.drop_first());
        (s2, seq![o1] + o2)
    }
}

/// A zero-filled vector of the requested size.
fn alloc_zeroed(n: usize) -> (r: Vec<u8>)
    ensures
        r@.len() == n,
{
    let mut r: Vec<u8> = Vec::new();
    let mut i: usize = 0;
    while i < n
        invariant
            i <= n,
            r@.len() == i,
        decreases n - i,
    {
        r.push(0);
        i = i + 1;
    }
    r
}

/// A copy of `data[start..]`.
fn slice_suffix(data: &[u8], start: usize) -> (r: Vec<u8>)
    requires
        start <= data@.len(),
    ensures
        r@ == data@.skip(start as int),
{
    let mut r: Vec<u8> = Vec::new();
    let mut i = start;
    proof {
        assert(r@ =~= data@.subrange(start as int, start as int));
    }
    while i < data.len()
        invariant
            start <= i <= data@.len(),
            r@ == data@.subrange(start as int, i as int),
        decreases data@.len() - i,
    {
        r.push(data[i]);
        proof {
            assert(data@.subrange(start as int, i as int).push(data@[i as int]) =~= data@.subrange(
                start as int,
                i as int + 1,
            ));
        }
        i = i + 1;
    }
    proof {
        assert(data@.subrange(start as int, data@.len() as int) =~= data@.skip(start as int));
    }
    r
}

/// A copy of `data[start..end]`.
fn slice_range(data: &[u8], start: usize, end: usize) -> (r: Vec<u8>)
    requires
        start <= end <= data@.len(),
    ensures
        r@ == data@.subrange(start as int, end as int),
{
    let mut r: Vec<u8> = Vec::new();
    let mut i = start;
    proof {
        assert(r@ =~= data@.subrange(start as int, start as int));
    }
    while i < end
        invariant
            start <= i <= end <= data@.len(),
            r@ == data@.subrange(start as int, i as int),
        decreases end - i,
    {
        r.push(data[i]);
        proof {
            assert(data@.subrange(start as int, i as int).push(data@[i as int]) =~= data@.subrange(
                start as int,
                i as int + 1,
            ));
        }
        i = i + 1;
    }
    r
}

} // verus!
