//! The legacy send engine: assign message numbers, split oversize
//! payloads, and serialize outbound datagrams with their acknowledgement
//! header.

use vstd::prelude::*;

use crate::bitio::{pad_to_byte, u32_le_bits, BitWriter, bytes_bits};
use crate::bridge::{Packet, PacketV, Reliability};
use crate::packet::{
    packet_bits, RakPacketV, RaknetPacket, ReliabilityData, SplitPacketInfo,
};
use crate::rangelist::{rangelist_bits, Range, RangeList};
use crate::recv::{packet_views, rak_views, wrap_inc};

verus! {

/// The connection's MTU, fixed by the peer protocol.
pub const MTU_SIZE: usize = 1228;

/// Bytes the UDP header is budgeted at.
pub const UDP_HEADER_SIZE: usize = 28;

/// The largest datagram this engine will produce: sub-packet header plus
/// payload, without the IP/UDP headers.
pub const MAX_PACKET_SIZE: usize = MTU_SIZE - UDP_HEADER_SIZE;

/// A counter advanced `i` steps with wrap-around.
pub open spec fn wrap_add(m: u32, i: int) -> u32 {
    ((m + i) % 0x1_0000_0000) as u32
}

/// The sub-packet header size in bytes for a reliability mode: the header
/// bits rounded up generously (compressed fields counted at full width),
/// plus one byte of alignment slack.
pub open spec fn spec_header_len(rel: Reliability, is_split_packet: bool) -> int {
    let bits = 32 + 3 + (if rel == Reliability::UnreliableSequenced || rel
        == Reliability::ReliableOrdered {
        37int
    } else {
        0int
    }) + 1 + (if is_split_packet {
        96int
    } else {
        0int
    });
    bits / 8 + 1
}

/// Send-side state of one legacy connection: four wrap-around counters.
pub struct SendPart {
    /// Message number the next sub-packet will carry.
    pub message_number: u32,
    /// Id the next split packet will carry.
    pub split_packet_index: u16,
    /// Ordinal the next unreliable-sequenced packet will carry.
    pub unrel_seq_index: u32,
    /// Ordinal the next reliable-ordered packet will carry.
    pub rel_ord_index: u32,
}

/// Mapping a packet's reliability to its wire tag consumes the matching
/// ordinal counter.
pub open spec fn spec_rel_data(st: SendPart, rel: Reliability) -> (SendPart, ReliabilityData) {
    match rel {
        Reliability::Unreliable => (st, ReliabilityData::Unreliable),
        Reliability::UnreliableSequenced => (
            SendPart { unrel_seq_index: wrap_inc(st.unrel_seq_index), ..st },
            ReliabilityData::UnreliableSequenced(st.unrel_seq_index),
        ),
        Reliability::Reliable => (st, ReliabilityData::Reliable),
        Reliability::ReliableOrdered => (
            SendPart { rel_ord_index: wrap_inc(st.rel_ord_index), ..st },
            ReliabilityData::ReliableOrdered(st.rel_ord_index),
        ),
    }
}

/// The chunks of an oversize payload: consecutive `chunk_size` slices,
/// each its own sub-packet with a fresh message number and the next
/// chunk index.
pub open spec fn spec_chunks(
    data: Seq<u8>,
    chunk_size: int,
    rd: ReliabilityData,
    split_id: u16,
    msg: u32,
    index: u32,
    count: u32,
) -> Seq<RakPacketV>
    decreases data.len(),
    when chunk_size >= 1
{
    if data.len() == 0 {
        Seq::empty()
    } else {
        let take = if data.len() < chunk_size {
            data.len() as int
        } else {
            chunk_size
        };
        seq![
            RakPacketV {
                message_number: msg,
                rel_data: rd,
                split_packet_info: Some(
                    SplitPacketInfo { id: split_id, index, count },
                ),
                data: data.take(take),
            },
        ] + spec_chunks(
            data.skip(take),
            chunk_size,
            rd,
            split_id,
            wrap_inc(msg),
            wrap_add(index, 1),
            count,
        )
    }
}

/// Splitting one oversize payload: a fresh split id, `ceil(len / c)`
/// chunks of `c = MAX_PACKET_SIZE - header` bytes, each with its own
/// message number.
pub open spec fn spec_split_branch(
    st1: SendPart,
    rel: Reliability,
    rd: ReliabilityData,
    data: Seq<u8>,
) -> (SendPart, Seq<RakPacketV>) {
    let split_id = st1.split_packet_index;
    let st2 = SendPart { split_packet_index: wrap_inc16(st1.split_packet_index), ..st1 };
    let c = MAX_PACKET_SIZE - spec_header_len(rel, true);
    let count = (((data.len() + c - 1) / c) % 0x1_0000_0000) as u32;
    let chunks = spec_chunks(data, c, rd, split_id, st2.message_number, 0, count);
    (SendPart { message_number: wrap_add(st2.message_number, chunks.len() as int), ..st2 }, chunks)
}

/// What one outbound packet becomes: the new counter state and the wire
/// sub-packets (one, or several chunks when the payload exceeds the MTU).
pub open spec fn spec_process_one(st: SendPart, p: PacketV) -> (SendPart, Seq<RakPacketV>) {
    let (st1, rd) = spec_rel_data(st, p.reliability);
    if p.data.len() > MAX_PACKET_SIZE - spec_header_len(p.reliability, false) {
        spec_split_branch(st1, p.reliability, rd, p.data)
    } else {
        let st2 = SendPart { message_number: wrap_inc(st1.message_number), ..st1 };
        (
            st2,
            seq![
                RakPacketV {
                    message_number: st1.message_number,
                    rel_data: rd,
                    split_packet_info: None,
                    data: p.data,
                },
            ],
        )
    }
}

/// A batch of outbound packets folded through `spec_process_one`.
pub open spec fn spec_process_out(st: SendPart, ps: Seq<PacketV>) -> (SendPart, Seq<RakPacketV>)
    decreases ps.len(),
{
    if ps.len() == 0 {
        (st, Seq::empty())
    } else {
        let (st1, out1) = spec_process_one(st, ps[0]);
        let (st2, out2) = spec_process_out(st1, ps.drop_first());
        (st2, out1 + out2)
    }
}

/// The 16-bit counterpart of `wrap_inc`, for split ids.
pub open spec fn wrap_inc16(x: u16) -> u16 {
    if x == 0xffff {
        0u16
    } else {
        (x + 1) as u16
    }
}

/// The acknowledgement header of a datagram: one flag bit and, when there
/// is anything to acknowledge, the echoed remote clock and the serialized
/// range list.
pub open spec fn acks_bits(acks: Seq<Range>, remote_system_time: u32) -> Seq<bool> {
    if acks.len() == 0 {
        seq![false]
    } else {
        seq![true] + u32_le_bits(remote_system_time) + rangelist_bits(acks)
    }
}

/// The bits of a datagram carrying one sub-packet: the acknowledgement
/// header, a zero has-remote-clock flag, then the sub-packet.
pub open spec fn datagram_bits(p: RakPacketV, acks: Seq<Range>, remote_system_time: u32) -> Seq<
    bool,
> {
    let head = acks_bits(acks, remote_system_time) + seq![false];
    head + packet_bits(p, head.len() as int)
}

impl SendPart {
    pub fn new() -> (r: SendPart)
        ensures
            r == (SendPart {
                message_number: 0,
                split_packet_index: 0,
                unrel_seq_index: 0,
                rel_ord_index: 0,
            }),
    {
        SendPart { message_number: 0, split_packet_index: 0, unrel_seq_index: 0, rel_ord_index: 0 }
    }

    /// Consumes the next message number.
    pub fn message_number(&mut self) -> (r: u32)
        ensures
            r == old(self).message_number,
            *final(self) == (SendPart {
                message_number: wrap_inc(old(self).message_number),
                ..*old(self)
            }),
    {
        let msgn = self.message_number;
        self.message_number = wrap_inc_exec16_32(self.message_number);
        msgn
    }

    /// Consumes the next split packet id.
    pub fn split_packet_index(&mut self) -> (r: u16)
        ensures
            r == old(self).split_packet_index,
            *final(self) == (SendPart {
                split_packet_index: wrap_inc16(old(self).split_packet_index),
                ..*old(self)
            }),
    {
        let id = self.split_packet_index;
        if self.split_packet_index == 0xffff {
            self.split_packet_index = 0;
        } else {
            self.split_packet_index = self.split_packet_index + 1;
        }
        id
    }

    /// Maps a packet's reliability to its wire tag, consuming the
    /// matching ordinal counter.
    pub fn rel_data(&mut self, rel: &Reliability) -> (r: ReliabilityData)
        ensures
            (*final(self), r) == spec_rel_data(*old(self), *rel),
    {
        match rel {
            Reliability::Unreliable => ReliabilityData::Unreliable,
            Reliability::UnreliableSequenced => {
                let ord = self.unrel_seq_index;
                self.unrel_seq_index = wrap_inc_exec16_32(self.unrel_seq_index);
                ReliabilityData::UnreliableSequenced(ord)
            },
            Reliability::Reliable => ReliabilityData::Reliable,
            Reliability::ReliableOrdered => {
                let ord = self.rel_ord_index;
                self.rel_ord_index = wrap_inc_exec16_32(self.rel_ord_index);
                ReliabilityData::ReliableOrdered(ord)
            },
        }
    }
}

fn wrap_inc_exec16_32(x: u32) -> (r: u32)
    ensures
        r == wrap_inc(x),
{
    if x == 0xffff_ffff {
        0
    } else {
        x + 1
    }
}

/// The sub-packet header size in bytes; see `spec_header_len`.
pub fn header_len(rel: &Reliability, is_split_packet: bool) -> (r: usize)
    ensures
        r == spec_header_len(*rel, is_split_packet),
{
    let mut len: usize = 32;  // message number
    len = len + 3;  // reliability
    if *rel == Reliability::UnreliableSequenced || *rel == Reliability::ReliableOrdered {
        len = len + 5;  // ordering channel
        len = len + 32;  // ordering index
    }
    len = len + 1;  // is split packet
    if is_split_packet {
        len = len + 16;  // split packet id
        len = len + 32;  // split packet index (compressed write; assume the maximum)
        len = len + 32;  // split packet count (compressed write; assume the maximum)
        len = len + 16;  // data length (compressed write; assume the maximum)
    }
    len / 8 + 1
}

/// Copies `data[start..end]` into a fresh vector.
fn subvec(data: &Vec<u8>, start: usize, end: usize) -> (r: Vec<u8>)
    requires
        start <= end <= data@.len(),
    ensures
        r@ == data@.subrange(start as int, end as int),
{
    let mut r: Vec<u8> = Vec::new();
    let mut i = start;
    proof {
        assert(r@ =~= data@.subrange(start as int, start as int));
    }
    while i < end
        invariant
            start <= i <= end <= data@.len(),
            r@ == data@.subrange(start as int, i as int),
        decreases end - i,
    {
        r.push(data[i]);
        proof {
            assert(data@.subrange(start as int, i as int).push(data@[i as int]) =~= data@.subrange(
                start as int,
                i as int + 1,
            ));
        }
        i = i + 1;
    }
    r
}

impl SendPart {
    /// Splits one oversize payload into chunk sub-packets: one fresh
    /// split id, and one message number per chunk.
    #[verifier::loop_isolation(false)]
    fn split_into_chunks(
        &mut self,
        reliability: &Reliability,
        rd: ReliabilityData,
        data: Vec<u8>,
    ) -> (r: Vec<RaknetPacket>)
        requires
            data@.len() <= u32::MAX,
            data@.len() > MAX_PACKET_SIZE - spec_header_len(*reliability, false),
        ensures
            (*final(self), rak_views(r@)) == spec_split_branch(*old(self), *reliability, rd, data@),
    {
        let split_packet_id = self.split_packet_index();
        let ghost st2 = *self;
        let chunk_size = MAX_PACKET_SIZE - header_len(reliability, true);
        proof {
            assert(2 <= chunk_size);
        }
        let q = data.len() / chunk_size;
        proof {
            assert((data@.len() as int / chunk_size as int) <= (data@.len() as int / 2))
                by (nonlinear_arith)
                requires
                    chunk_size >= 2,
                    data@.len() >= 0,
            ;
        }
        let count_usize = q + (if data.len() % chunk_size == 0 {
            0usize
        } else {
            1usize
        });
        proof {
            assert(count_usize == (data@.len() + chunk_size - 1) / chunk_size as int)
                by (nonlinear_arith)
                requires
                    chunk_size >= 1,
                    data@.len() >= 0,
                    count_usize == data@.len() as int / chunk_size as int + (if data@.len()
                        as int % chunk_size as int == 0 {
                        0int
                    } else {
                        1int
                    }),
            ;
            assert(count_usize <= data@.len() / 2 + 1) by (nonlinear_arith)
                requires
                    chunk_size >= 2,
                    count_usize == (data@.len() + chunk_size - 1) / chunk_size as int,
            ;
            assert(((data@.len() + chunk_size - 1) / chunk_size as int) % 0x1_0000_0000
                == count_usize);
        }
        let count = count_usize as u32;
        let ghost chunks = spec_chunks(
            data@,
            chunk_size as int,
            rd,
            split_packet_id,
            st2.message_number,
            0,
            count,
        );
        let mut out: Vec<RaknetPacket> = Vec::new();
        let mut offset: usize = 0;
        let mut index: u32 = 0;
        proof {
            assert(data@.skip(0) =~= data@);
            assert(rak_views(out@) =~= Seq::<RakPacketV>::empty());
            assert(chunks =~= rak_views(out@) + chunks);
        }
        while offset < data.len()
            invariant
                offset <= data@.len(),
                offset == chunk_size * (index as int) || offset == data@.len(),
                index as int <= count_usize as int,
                self.message_number == wrap_add(st2.message_number, out@.len() as int),
                out@.len() == index as int,
                chunks == rak_views(out@) + spec_chunks(
                    data@.skip(offset as int),
                    chunk_size as int,
                    rd,
                    split_packet_id,
                    self.message_number,
                    index,
                    count,
                ),
                *self == (SendPart { message_number: self.message_number, ..st2 }),
            decreases data@.len() - offset,
        {
            let ghost out_pre = out@;
            proof {
                assert((index as int) < (count_usize as int)) by (nonlinear_arith)
                    requires
                        chunk_size >= 1,
                        offset < data@.len(),
                        offset == chunk_size * (index as int) || offset == data@.len(),
                        count_usize == (data@.len() + chunk_size - 1) / chunk_size as int,
                        index >= 0,
                ;
            }
            let take = if data.len() - offset < chunk_size {
                data.len() - offset
            } else {
                chunk_size
            };
            let chunk = subvec(&data, offset, offset + take);
            let message_number = self.message_number();
            let pkt = RaknetPacket {
                message_number,
                rel_data: rd,
                split_packet_info: Some(SplitPacketInfo { id: split_packet_id, index, count }),
                data: chunk,
            };
            let ghost pktv = pkt@;
            out.push(pkt);
            proof {
                let remv = data@.skip(offset as int);
                let takev = if remv.len() < chunk_size as int {
                    remv.len() as int
                } else {
                    chunk_size as int
                };
                assert(takev == take);
                assert(remv.take(takev) =~= data@.subrange(offset as int, offset as int + take));
                assert(remv.skip(takev) =~= data@.skip(offset as int + take));
                assert(wrap_add(index, 1) == index + 1);
                lemma_wrap_inc_add(st2.message_number, out_pre.len() as int);
                assert(rak_views(out@) =~= rak_views(out_pre).push(pktv));
                assert(rak_views(out_pre).push(pktv) + spec_chunks(
                    data@.skip(offset as int + take),
                    chunk_size as int,
                    rd,
                    split_packet_id,
                    self.message_number,
                    (index + 1) as u32,
                    count,
                ) =~= rak_views(out_pre) + (seq![pktv] + spec_chunks(
                    data@.skip(offset as int + take),
                    chunk_size as int,
                    rd,
                    split_packet_id,
                    self.message_number,
                    (index + 1) as u32,
                    count,
                )));
            }
            proof {
                assert(chunk_size * ((index + 1) as int) == chunk_size * (index as int)
                    + chunk_size) by (nonlinear_arith);
            }
            offset = offset + take;
            index = index + 1;
        }
        proof {
            assert(data@.skip(data@.len() as int) =~= Seq::<u8>::empty());
            assert(chunks =~= rak_views(out@));
        }
        out
    }

    /// Turns a batch of outbound packets into wire sub-packets: each
    /// packet consumes the counters `spec_process_one` prescribes, and
    /// oversize payloads are split into chunks sharing one split id.
    #[verifier::loop_isolation(false)]
    pub fn process_outgoing_packets(&mut self, packets: Vec<Packet>) -> (r: Vec<RaknetPacket>)
        requires
            forall|i: int|
                0 <= i < packets@.len() ==> (#[trigger] packets@[i]).data@.len() <= u32::MAX,
        ensures
            (*final(self), rak_views(r@)) == spec_process_out(
                *old(self),
                packet_views(packets@),
            ),
    {
        let ghost st0 = *self;
        let ghost fullv = packet_views(packets@);
        let mut input = packets;
        let mut out: Vec<RaknetPacket> = Vec::new();
        proof {
            let f = spec_process_out(st0, fullv);
            assert(rak_views(out@) + spec_process_out(*self, packet_views(input@)).1 =~= f.1);
        }
        while input.len() > 0
            invariant
                forall|i: int|
                    0 <= i < input@.len() ==> (#[trigger] input@[i]).data@.len() <= u32::MAX,
                spec_process_out(st0, fullv).0 == spec_process_out(*self, packet_views(input@)).0,
                spec_process_out(st0, fullv).1 == rak_views(out@) + spec_process_out(
                    *self,
                    packet_views(input@),
                ).1,
            decreases input.len(),
        {
            let ghost st_top = *self;
            let ghost input_pre = input@;
            let p = input.remove(0);
            let ghost pv = p@;
            proof {
                assert(packet_views(input_pre)[0] == pv);
                assert(packet_views(input_pre).drop_first() =~= packet_views(input@));
            }
            let Packet { reliability, data } = p;
            let rd = self.rel_data(&reliability);
            let ghost st1 = *self;
            let ghost delta: Seq<RakPacketV>;
            if data.len() > MAX_PACKET_SIZE - header_len(&reliability, false) {
                let mut chunks_vec = self.split_into_chunks(&reliability, rd, data);
                proof {
                    delta = rak_views(chunks_vec@);
                    assert(spec_process_one(st_top, pv) == (*self, delta));
                }
                let ghost out_pre2 = out@;
                let ghost chunksv = chunks_vec@;
                out.append(&mut chunks_vec);
                proof {
                    assert(rak_views(out@) =~= rak_views(out_pre2) + rak_views(chunksv));
                }
            } else {
                let message_number = self.message_number();
                let pkt = RaknetPacket {
                    message_number,
                    rel_data: rd,
                    split_packet_info: None,
                    data,
                };
                let ghost pktv = pkt@;
                out.push(pkt);
                proof {
                    delta = seq![pktv];
                    assert(spec_process_one(st_top, pv) == (*self, delta));
                }
            }
            proof {
                assert(rak_views(out@).skip(out@.len() - delta.len()) =~= delta);
                assert(rak_views(out@).take(out@.len() - delta.len()) =~= rak_views(out@).take(
                    out@.len() - delta.len(),
                ));
                let prev_len = out@.len() - delta.len();
                assert(spec_process_out(st_top, packet_views(input_pre)).0 == spec_process_out(
                    *self,
                    packet_views(input@),
                ).0 && spec_process_out(st_top, packet_views(input_pre)).1 == delta
                    + spec_process_out(*self, packet_views(input@)).1) by {
                    assert(packet_views(input_pre) =~= seq![pv] + packet_views(input@));
                    assert((seq![pv] + packet_views(input@)).drop_first() =~= packet_views(
                        input@,
                    ));
                }
                assert(rak_views(out@) =~= rak_views(out@).take(prev_len) + delta);
                assert(rak_views(out@).take(prev_len) + (delta + spec_process_out(
                    *self,
                    packet_views(input@),
                ).1) =~= (rak_views(out@).take(prev_len) + delta) + spec_process_out(
                    *self,
                    packet_views(input@),
                ).1);
            }
        }
        proof {
            assert(packet_views(input@) =~= Seq::<PacketV>::empty());
            assert(rak_views(out@) + Seq::<RakPacketV>::empty() =~= rak_views(out@));
        }
        out
    }
}

/// How many chunks an oversize payload falls into.
pub proof fn lemma_spec_chunks_len(
    data: Seq<u8>,
    chunk_size: int,
    rd: ReliabilityData,
    split_id: u16,
    msg: u32,
    index: u32,
    count: u32,
)
    requires
        chunk_size >= 1,
    ensures
        spec_chunks(data, chunk_size, rd, split_id, msg, index, count).len() == (data.len()
            + chunk_size - 1) / chunk_size,
    decreases data.len(),
{
    if data.len() == 0 {
        assert((data.len() + chunk_size - 1) / chunk_size == 0) by (nonlinear_arith)
            requires
                chunk_size >= 1,
                data.len() == 0,
        ;
    } else {
        let take = if data.len() < chunk_size {
            data.len() as int
        } else {
            chunk_size
        };
        lemma_spec_chunks_len(
            data.skip(take),
            chunk_size,
            rd,
            split_id,
            wrap_inc(msg),
            wrap_add(index, 1),
            count,
        );
        assert((data.len() + chunk_size - 1) / chunk_size == 1 + (data.skip(take).len()
            + chunk_size - 1) / chunk_size) by (nonlinear_arith)
            requires
                chunk_size >= 1,
                data.len() > 0,
                take == if data.len() < chunk_size {
                    data.len() as int
                } else {
                    chunk_size
                },
                data.skip(take).len() == data.len() - take,
        ;
    }
}


/// Advancing a wrapped counter one more step.
proof fn lemma_wrap_inc_add(m: u32, k: int)
    requires
        k >= 0,
    ensures
        wrap_inc(wrap_add(m, k)) == wrap_add(m, k + 1),
{
    let a = m + k;
    assert(0 <= a % 0x1_0000_0000 < 0x1_0000_0000) by (nonlinear_arith)
        requires
            a >= 0,
    ;
    assert((a + 1) % 0x1_0000_0000 == (if a % 0x1_0000_0000 == 0xffff_ffff {
        0int
    } else {
        a % 0x1_0000_0000 + 1
    })) by (nonlinear_arith)
        requires
            a >= 0,
    ;
}


/// Every chunk a split produces fits a datagram.
proof fn lemma_spec_chunks_small(
    data: Seq<u8>,
    chunk_size: int,
    rd: ReliabilityData,
    split_id: u16,
    msg: u32,
    index: u32,
    count: u32,
)
    requires
        1 <= chunk_size <= MAX_PACKET_SIZE,
    ensures
        forall|i: int|
            0 <= i < spec_chunks(data, chunk_size, rd, split_id, msg, index, count).len() ==> (
            #[trigger] spec_chunks(data, chunk_size, rd, split_id, msg, index, count)[i]).data.len()
                <= MAX_PACKET_SIZE,
    decreases data.len(),
{
    if data.len() > 0 {
        let take = if data.len() < chunk_size {
            data.len() as int
        } else {
            chunk_size
        };
        lemma_spec_chunks_small(
            data.skip(take),
            chunk_size,
            rd,
            split_id,
            wrap_inc(msg),
            wrap_add(index, 1),
            count,
        );
        let s = spec_chunks(data, chunk_size, rd, split_id, msg, index, count);
        let rest = spec_chunks(
            data.skip(take),
            chunk_size,
            rd,
            split_id,
            wrap_inc(msg),
            wrap_add(index, 1),
            count,
        );
        assert forall|i: int| 0 <= i < s.len() implies (#[trigger] s[i]).data.len()
            <= MAX_PACKET_SIZE by {
            if i > 0 {
                assert(s[i] == rest[i - 1]);
            }
        }
    }
}

/// Every wire sub-packet the engine produces fits a datagram.
pub proof fn lemma_process_out_small(st: SendPart, ps: Seq<PacketV>)
    ensures
        forall|i: int|
            0 <= i < spec_process_out(st, ps).1.len() ==> (#[trigger] spec_process_out(
                st,
                ps,
            ).1[i]).data.len() <= MAX_PACKET_SIZE,
    decreases ps.len(),
{
    if ps.len() > 0 {
        let (st1, out1) = spec_process_one(st, ps[0]);
        lemma_process_out_small(st1, ps.drop_first());
        let rest = spec_process_out(st1, ps.drop_first()).1;
        let (st2, rd) = spec_rel_data(st, ps[0].reliability);
        if ps[0].data.len() > MAX_PACKET_SIZE - spec_header_len(ps[0].reliability, false) {
            let c = MAX_PACKET_SIZE - spec_header_len(ps[0].reliability, true);
            lemma_spec_chunks_small(
                ps[0].data,
                c,
                rd,
                st2.split_packet_index,
                st2.message_number,
                0,
                (((ps[0].data.len() + c - 1) / c) % 0x1_0000_0000) as u32,
            );
        }
        assert forall|i: int| 0 <= i < spec_process_out(st, ps).1.len() implies (
        #[trigger] spec_process_out(st, ps).1[i]).data.len() <= MAX_PACKET_SIZE by {
            if i >= out1.len() {
                assert(spec_process_out(st, ps).1[i] == rest[i - out1.len()]);
            } else {
                assert(spec_process_out(st, ps).1[i] == out1[i]);
            }
        }
    }
}

impl SendPart {
    /// Writes the acknowledgement header: the has-acks flag and, when any
    /// ids are pending, the echoed remote clock and the serialized range
    /// list. The pending set is cleared.
    fn write_acks(w: &mut BitWriter, acks: &mut RangeList, remote_system_time: u32)
        requires
            old(acks)@.len() <= 0xffff,
        ensures
            final(w)@ == old(w)@ + acks_bits(old(acks)@, remote_system_time),
            final(acks).wf(),
            final(acks)@ == Seq::<Range>::empty(),
    {
        let ghost start = w@;
        let has_acks = !acks.is_empty();
        w.write_bit(has_acks);
        if has_acks {
            w.write_u32(remote_system_time);
            acks.serialize(w);
            proof {
                assert(w@ =~= start + acks_bits(old(acks)@, remote_system_time));
            }
        } else {
            proof {
                assert(w@ =~= start + acks_bits(old(acks)@, remote_system_time));
            }
        }
        acks.clear();
    }

    /// Serializes one datagram: the acknowledgement header, a zero
    /// has-remote-clock flag, then the sub-packet. Pending
    /// acknowledgements are consumed into this datagram.
    fn send_packet(packet: RaknetPacket, acks: &mut RangeList, remote_system_time: u32) -> (r: Vec<
        u8,
    >)
        requires
            old(acks)@.len() <= 0xffff,
            packet.data@.len() <= 8191,
        ensures
            bytes_bits(r@) == pad_to_byte(
                datagram_bits(packet@, old(acks)@, remote_system_time),
            ),
            final(acks).wf(),
            final(acks)@ == Seq::<Range>::empty(),
    {
        let mut w = BitWriter::new();
        Self::write_acks(&mut w, acks, remote_system_time);
        w.write_bit(false);
        let ghost head = w@;
        proof {
            assert(head =~= acks_bits(old(acks)@, remote_system_time) + seq![false]);
        }
        packet.serialize(&mut w);
        proof {
            assert(w@ =~= datagram_bits(packet@, old(acks)@, remote_system_time));
        }
        w.finish()
    }

    /// Serializes an acknowledgement-only datagram (the acknowledgement
    /// header, then a zero has-remote-clock flag and no sub-packets), or
    /// nothing when no ids are pending.
    fn send_acks(acks: &mut RangeList, remote_system_time: u32) -> (r: Option<Vec<u8>>)
        requires
            old(acks)@.len() <= 0xffff,
        ensures
            old(acks)@.len() == 0 ==> r is None && *final(acks) == *old(acks),
            old(acks)@.len() > 0 ==> (r matches Some(d) && bytes_bits(d@) == pad_to_byte(
                acks_bits(old(acks)@, remote_system_time) + seq![false],
            ) && final(acks).wf() && final(acks)@ == Seq::<Range>::empty()),
    {
        if acks.is_empty() {
            return None;
        }
        let mut w = BitWriter::new();
        Self::write_acks(&mut w, acks, remote_system_time);
        w.write_bit(false);
        proof {
            assert(w@ =~= acks_bits(old(acks)@, remote_system_time) + seq![false]);
        }
        Some(w.finish())
    }

    /// Turns a batch of packets into serialized datagrams. Pending
    /// acknowledgements ride along: in the first datagram when there are
    /// packets to send, in a datagram of their own otherwise, and the
    /// pending set is cleared with them. Datagrams past the first carry
    /// an empty acknowledgement header.
    #[verifier::loop_isolation(false)]
    pub fn send_packets(
        &mut self,
        packets: Vec<Packet>,
        acks: &mut RangeList,
        remote_system_time: u32,
    ) -> (r: Vec<Vec<u8>>)
        requires
            old(acks)@.len() <= 0xffff,
            forall|i: int|
                0 <= i < packets@.len() ==> (#[trigger] packets@[i]).data@.len() <= u32::MAX,
        ensures
            *final(self) == spec_process_out(*old(self), packet_views(packets@)).0,
            final(acks).wf(),
            ({
                let rak = spec_process_out(*old(self), packet_views(packets@)).1;
                if rak.len() == 0 {
                    &&& (old(acks)@.len() == 0 ==> r@.len() == 0 && *final(acks) == *old(acks))
                    &&& (old(acks)@.len() > 0 ==> r@.len() == 1 && bytes_bits(r@[0]@)
                        == pad_to_byte(acks_bits(old(acks)@, remote_system_time) + seq![false])
                        && final(acks)@ == Seq::<Range>::empty())
                } else {
                    &&& r@.len() == rak.len()
                    &&& final(acks)@ == Seq::<Range>::empty()
                    &&& bytes_bits(r@[0]@) == pad_to_byte(
                        datagram_bits(rak[0], old(acks)@, remote_system_time),
                    )
                    &&& forall|i: int|
                        1 <= i < rak.len() ==> bytes_bits(#[trigger] r@[i]@) == pad_to_byte(
                            datagram_bits(rak[i], Seq::<Range>::empty(), remote_system_time),
                        )
                }
            }),
    {
        let ghost acks0 = *acks;
        let ghost rakv = spec_process_out(*self, packet_views(packets@)).1;
        let rak_packets = self.process_outgoing_packets(packets);
        proof {
            lemma_process_out_small(*old(self), packet_views(packets@));
        }
        let mut out: Vec<Vec<u8>> = Vec::new();
        if rak_packets.len() == 0 {
            match Self::send_acks(acks, remote_system_time) {
                Some(d) => {
                    out.push(d);
                },
                None => {},
            }
            return out;
        }
        let mut rem = rak_packets;
        while rem.len() > 0
            invariant
                out@.len() + rem@.len() == rakv.len(),
                rak_views(rem@) == rakv.skip(out@.len() as int),
                if out@.len() == 0 {
                    *acks == acks0
                } else {
                    acks@ == Seq::<Range>::empty() && acks.wf()
                },
                forall|i: int|
                    0 <= i < out@.len() ==> bytes_bits(#[trigger] out@[i]@) == pad_to_byte(
                        datagram_bits(
                            rakv[i],
                            if i == 0 {
                                acks0@
                            } else {
                                Seq::<Range>::empty()
                            },
                            remote_system_time,
                        ),
                    ),
            decreases rem@.len(),
        {
            let ghost rem_pre = rem@;
            let ghost k = out@.len() as int;
            let pkt = rem.remove(0);
            proof {
                assert(rak_views(rem_pre)[0] == pkt@);
                assert(rak_views(rem_pre).drop_first() =~= rak_views(rem@));
                assert(rakv.skip(k).drop_first() =~= rakv.skip(k + 1));
                assert(pkt@ == rakv[k]);
                assert(pkt.data@.len() <= MAX_PACKET_SIZE);
            }
            let d = Self::send_packet(pkt, acks, remote_system_time);
            out.push(d);
        }
        proof {
            assert(rak_views(rem@) =~= Seq::<RakPacketV>::empty());
        }
        out
    }
}


/// Shifting the start of a wrapped counter walk by one step.
proof fn lemma_wrap_add_shift(m: u32, k: int)
    requires
        k >= 0,
    ensures
        wrap_add(wrap_inc(m), k) == wrap_add(m, k + 1),
{
    vstd::arithmetic::div_mod::lemma_add_mod_noop(m + 1, k, 0x1_0000_0000);
    assert((m + 1) % 0x1_0000_0000 == wrap_inc(m)) by {
        if m == 0xffff_ffff {
            assert((m + 1) % 0x1_0000_0000 == 0) by (nonlinear_arith)
                requires
                    m == 0xffff_ffff,
            ;
        }
    }
    assert((wrap_inc(m) + k % 0x1_0000_0000) % 0x1_0000_0000 == (m + 1 + k) % 0x1_0000_0000);
    assert((wrap_inc(m) + k % 0x1_0000_0000) % 0x1_0000_0000 == (wrap_inc(m) + k)
        % 0x1_0000_0000) by {
        vstd::arithmetic::div_mod::lemma_add_mod_noop(wrap_inc(m) as int, k, 0x1_0000_0000);
    }
}

/// A batch of same-mode packets, each small enough not to split, comes
/// out as one sub-packet per packet, with consecutive message numbers;
/// for the two sequenced/ordered modes the ordinals are consecutive as
/// well. All four counters wrap around their tops.
pub proof fn lemma_sequential_numbering(st: SendPart, ps: Seq<PacketV>, mode: Reliability)
    requires
        forall|i: int| 0 <= i < ps.len() ==> (#[trigger] ps[i]).reliability == mode,
        forall|i: int|
            0 <= i < ps.len() ==> (#[trigger] ps[i]).data.len() <= MAX_PACKET_SIZE
                - spec_header_len(mode, false),
    ensures
        spec_process_out(st, ps).1.len() == ps.len(),
        forall|i: int|
            0 <= i < ps.len() ==> (#[trigger] spec_process_out(st, ps).1[i]).message_number
                == wrap_add(st.message_number, i),
        mode == Reliability::UnreliableSequenced ==> forall|i: int|
            0 <= i < ps.len() ==> (#[trigger] spec_process_out(st, ps).1[i]).rel_data
                == ReliabilityData::UnreliableSequenced(wrap_add(st.unrel_seq_index, i)),
        mode == Reliability::ReliableOrdered ==> forall|i: int|
            0 <= i < ps.len() ==> (#[trigger] spec_process_out(st, ps).1[i]).rel_data
                == ReliabilityData::ReliableOrdered(wrap_add(st.rel_ord_index, i)),
    decreases ps.len(),
{
    if ps.len() > 0 {
        let (st1, rd) = spec_rel_data(st, ps[0].reliability);
        let (st2, out1) = spec_process_one(st, ps[0]);
        assert(forall|i: int| 0 <= i < ps.drop_first().len() ==> #[trigger] ps.drop_first()[i]
            == ps[i + 1]);
        lemma_sequential_numbering(st2, ps.drop_first(), mode);
        let rest = spec_process_out(st2, ps.drop_first()).1;
        let whole = spec_process_out(st, ps).1;
        assert(whole == out1 + rest);
        assert(wrap_add(st.message_number, 0) == st.message_number) by {
            assert((st.message_number as int) % 0x1_0000_0000 == st.message_number as int) by (nonlinear_arith)
                requires
                    0 <= (st.message_number as int) < 0x1_0000_0000,
            ;
        }
        if mode == Reliability::UnreliableSequenced {
            assert(wrap_add(st.unrel_seq_index, 0) == st.unrel_seq_index) by {
                assert((st.unrel_seq_index as int) % 0x1_0000_0000 == st.unrel_seq_index as int)
                    by (nonlinear_arith)
                    requires
                        0 <= (st.unrel_seq_index as int) < 0x1_0000_0000,
                ;
            }
        }
        if mode == Reliability::ReliableOrdered {
            assert(wrap_add(st.rel_ord_index, 0) == st.rel_ord_index) by {
                assert((st.rel_ord_index as int) % 0x1_0000_0000 == st.rel_ord_index as int) by (nonlinear_arith)
                    requires
                        0 <= (st.rel_ord_index as int) < 0x1_0000_0000,
                ;
            }
        }
        assert forall|i: int| 0 <= i < ps.len() implies (#[trigger] whole[i]).message_number
            == wrap_add(st.message_number, i) by {
            if i == 0 {
                assert(whole[0] == out1[0]);
            } else {
                assert(whole[i] == rest[i - 1]);
                lemma_wrap_add_shift(st.message_number, i - 1);
            }
        }
        if mode == Reliability::UnreliableSequenced {
            assert forall|i: int| 0 <= i < ps.len() implies (#[trigger] whole[i]).rel_data
                == ReliabilityData::UnreliableSequenced(wrap_add(st.unrel_seq_index, i)) by {
                if i == 0 {
                    assert(whole[0] == out1[0]);
                } else {
                    assert(whole[i] == rest[i - 1]);
                    lemma_wrap_add_shift(st.unrel_seq_index, i - 1);
                }
            }
        }
        if mode == Reliability::ReliableOrdered {
            assert forall|i: int| 0 <= i < ps.len() implies (#[trigger] whole[i]).rel_data
                == ReliabilityData::ReliableOrdered(wrap_add(st.rel_ord_index, i)) by {
                if i == 0 {
                    assert(whole[0] == out1[0]);
                } else {
                    assert(whole[i] == rest[i - 1]);
                    lemma_wrap_add_shift(st.rel_ord_index, i - 1);
                }
            }
        }
    }
}

} // verus!
