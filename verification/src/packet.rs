//! The legacy sub-packet codec: message number, reliability tag with its
//! ordering index, optional split-packet info, and a length-prefixed
//! payload, all bit-packed.

use vstd::prelude::*;

use crate::bitio::{
    bits_u16, bits_u32, bits_byte, bits_val, low_bits, pad_len, u16_le_bits, u32_le_bits,
    BitReader, BitWriter, lemma_bits_val_bound, lemma_two_pow_8,
};
use crate::bridge::{Packet, Reliability};
use crate::comp::{comp_u16_bits, comp_u32_bits, parse_comp_u16, parse_comp_u32, Compressed};

verus! {

/// Why a datagram or sub-packet failed to decode.
#[derive(Clone, Copy, Debug, PartialEq, Eq, Structural)]
pub enum DecodeError {
    /// The data ended in the middle of a field. At the top of a datagram
    /// this simply ends parsing; elsewhere it is reported to the caller.
    Truncated,
    /// A reliability id outside the four supported modes.
    BadReliabilityId,
    /// An ordering channel other than zero.
    BadOrderingChannel,
    /// A split header announcing fewer than two chunks.
    BadSplitCount,
    /// A split chunk index at or past the announced chunk count.
    BadSplitIndex,
}

/// A packet's reliability mode together with its ordering index, as it
/// appears on the wire.
#[derive(Clone, Copy, PartialEq, Eq, Structural)]
pub enum ReliabilityData {
    Unreliable,
    UnreliableSequenced(u32),
    Reliable,
    ReliableOrdered(u32),
}

impl ReliabilityData {
    /// The bare reliability mode, with the ordering index dropped.
    pub open spec fn spec_reliability(self) -> Reliability {
        match self {
            ReliabilityData::Unreliable => Reliability::Unreliable,
            ReliabilityData::UnreliableSequenced(_) => Reliability::UnreliableSequenced,
            ReliabilityData::Reliable => Reliability::Reliable,
            ReliabilityData::ReliableOrdered(_) => Reliability::ReliableOrdered,
        }
    }

    /// The bare reliability mode, with the ordering index dropped.
    pub fn to_reliability(&self) -> (r: Reliability)
        ensures
            r == self.spec_reliability(),
    {
        match self {
            ReliabilityData::Unreliable => Reliability::Unreliable,
            ReliabilityData::UnreliableSequenced(_) => Reliability::UnreliableSequenced,
            ReliabilityData::Reliable => Reliability::Reliable,
            ReliabilityData::ReliableOrdered(_) => Reliability::ReliableOrdered,
        }
    }
}

/// The bit encoding of a reliability tag: a 3-bit id, then, for the two
/// sequenced/ordered modes, a 5-bit ordering channel (always zero) and a
/// 32-bit ordering index.
pub open spec fn rel_bits(rd: ReliabilityData) -> Seq<bool> {
    match rd {
        ReliabilityData::Unreliable => low_bits(0, 3),
        ReliabilityData::UnreliableSequenced(ord) => low_bits(1, 3) + low_bits(0, 5) + u32_le_bits(
            ord,
        ),
        ReliabilityData::Reliable => low_bits(2, 3),
        ReliabilityData::ReliableOrdered(ord) => low_bits(3, 3) + low_bits(0, 5) + u32_le_bits(ord),
    }
}

/// Decoding a reliability tag from the bits at `pos`.
pub open spec fn parse_rel(s: Seq<bool>, pos: int) -> Option<(ReliabilityData, int)> {
    if pos + 3 <= s.len() {
        let id = bits_val(s, pos, 3);
        if id == 0 {
            Some((ReliabilityData::Unreliable, pos + 3))
        } else if id == 2 {
            Some((ReliabilityData::Reliable, pos + 3))
        } else if id == 1 || id == 3 {
            if pos + 8 <= s.len() && bits_val(s, pos + 3, 5) == 0 && pos + 40 <= s.len() {
                let ord = bits_u32(s, pos + 8);
                if id == 1 {
                    Some((ReliabilityData::UnreliableSequenced(ord), pos + 40))
                } else {
                    Some((ReliabilityData::ReliableOrdered(ord), pos + 40))
                }
            } else {
                None
            }
        } else {
            None
        }
    } else {
        None
    }
}

/// The error produced when `parse_rel` fails at `pos`.
pub open spec fn rel_err(s: Seq<bool>, pos: int) -> DecodeError {
    if pos + 3 > s.len() {
        DecodeError::Truncated
    } else {
        let id = bits_val(s, pos, 3);
        if id >= 4 {
            DecodeError::BadReliabilityId
        } else if id == 1 || id == 3 {
            if pos + 8 > s.len() {
                DecodeError::Truncated
            } else if bits_val(s, pos + 3, 5) != 0 {
                DecodeError::BadOrderingChannel
            } else {
                DecodeError::Truncated
            }
        } else {
            DecodeError::Truncated
        }
    }
}

impl ReliabilityData {
    /// Appends the tag's encoding to the writer.
    pub fn serialize(&self, w: &mut BitWriter)
        ensures
            final(w)@ == old(w)@ + rel_bits(*self),
    {
        let ghost start = w@;
        match self {
            ReliabilityData::Unreliable => {
                w.write_bits(0, 3);
            },
            ReliabilityData::UnreliableSequenced(ord) => {
                w.write_bits(1, 3);
                w.write_bits(0, 5);
                w.write_u32(*ord);
                proof {
                    assert(w@ =~= start + rel_bits(*self));
                }
            },
            ReliabilityData::Reliable => {
                w.write_bits(2, 3);
            },
            ReliabilityData::ReliableOrdered(ord) => {
                w.write_bits(3, 3);
                w.write_bits(0, 5);
                w.write_u32(*ord);
                proof {
                    assert(w@ =~= start + rel_bits(*self));
                }
            },
        }
    }

    /// Reads one tag from the reader.
    pub fn deserialize(r: &mut BitReader<'_>) -> (res: Result<ReliabilityData, DecodeError>)
        requires
            old(r).wf(),
        ensures
            final(r).wf(),
            final(r).data@ == old(r).data@,
            match parse_rel(old(r).bits(), old(r).pos as int) {
                Some((v, np)) => res matches Ok(rd) && rd == v && final(r).pos == np,
                None => res matches Err(e) && e == rel_err(old(r).bits(), old(r).pos as int),
            },
    {
        let id = match r.read_bits(3) {
            None => {
                return Err(DecodeError::Truncated);
            },
            Some(v) => v,
        };
        proof {
            lemma_bits_val_bound(old(r).bits(), old(r).pos as int, 3);
            lemma_two_pow_8();
        }
        if id == 0 {
            Ok(ReliabilityData::Unreliable)
        } else if id == 2 {
            Ok(ReliabilityData::Reliable)
        } else if id == 1 || id == 3 {
            let channel = match r.read_bits(5) {
                None => {
                    return Err(DecodeError::Truncated);
                },
                Some(v) => v,
            };
            proof {
                lemma_bits_val_bound(old(r).bits(), old(r).pos as int + 3, 5);
            }
            if channel != 0 {
                return Err(DecodeError::BadOrderingChannel);
            }
            let ord = match r.read_u32() {
                None => {
                    return Err(DecodeError::Truncated);
                },
                Some(v) => v,
            };
            if id == 1 {
                Ok(ReliabilityData::UnreliableSequenced(ord))
            } else {
                Ok(ReliabilityData::ReliableOrdered(ord))
            }
        } else {
            Err(DecodeError::BadReliabilityId)
        }
    }
}

/// The split-packet header carried by each chunk of an oversize payload.
#[derive(Clone, Copy, Debug, PartialEq, Eq, Structural)]
pub struct SplitPacketInfo {
    pub id: u16,
    pub index: u32,
    pub count: u32,
}

/// The bit encoding of a split header: the id, then the chunk index and
/// chunk count as compressed integers.
pub open spec fn split_bits(info: SplitPacketInfo) -> Seq<bool> {
    u16_le_bits(info.id) + comp_u32_bits(info.index) + comp_u32_bits(info.count)
}

/// Decoding a split header from the bits at `pos`. Failures are always
/// truncations.
pub open spec fn parse_split(s: Seq<bool>, pos: int) -> Option<(SplitPacketInfo, int)> {
    if pos + 16 <= s.len() {
        let id = bits_u16(s, pos);
        match parse_comp_u32(s, pos + 16) {
            Some((index, p1)) => match parse_comp_u32(s, p1) {
                Some((count, p2)) => Some((SplitPacketInfo { id, index, count }, p2)),
                None => None,
            },
            None => None,
        }
    } else {
        None
    }
}

impl SplitPacketInfo {
    /// Appends the header's encoding to the writer.
    pub fn serialize(&self, w: &mut BitWriter)
        ensures
            final(w)@ == old(w)@ + split_bits(*self),
    {
        let ghost start = w@;
        w.write_u16(self.id);
        Compressed::<u32>(self.index).serialize(w);
        Compressed::<u32>(self.count).serialize(w);
        proof {
            assert(w@ =~= start + split_bits(*self));
        }
    }

    /// Reads one header from the reader.
    pub fn deserialize(r: &mut BitReader<'_>) -> (res: Option<SplitPacketInfo>)
        requires
            old(r).wf(),
        ensures
            final(r).wf(),
            final(r).data@ == old(r).data@,
            match parse_split(old(r).bits(), old(r).pos as int) {
                Some((v, np)) => res matches Some(info) && info == v && final(r).pos == np,
                None => res is None,
            },
    {
        let id = match r.read_u16() {
            None => {
                return None;
            },
            Some(v) => v,
        };
        let index = match Compressed::<u32>::deserialize(r) {
            None => {
                return None;
            },
            Some(c) => c.0,
        };
        let count = match Compressed::<u32>::deserialize(r) {
            None => {
                return None;
            },
            Some(c) => c.0,
        };
        Some(SplitPacketInfo { id, index, count })
    }
}

/// One fully decoded legacy sub-packet.
pub struct RaknetPacket {
    pub message_number: u32,
    pub rel_data: ReliabilityData,
    pub split_packet_info: Option<SplitPacketInfo>,
    pub data: Vec<u8>,
}

/// The mathematical shadow of a `RaknetPacket`.
pub struct RakPacketV {
    pub message_number: u32,
    pub rel_data: ReliabilityData,
    pub split_packet_info: Option<SplitPacketInfo>,
    pub data: Seq<u8>,
}

impl View for RaknetPacket {
    type V = RakPacketV;

    open spec fn view(&self) -> RakPacketV {
        RakPacketV {
            message_number: self.message_number,
            rel_data: self.rel_data,
            split_packet_info: self.split_packet_info,
            data: self.data@,
        }
    }
}

impl RaknetPacket {
    /// Turns the sub-packet into an abstract packet, dropping the wire
    /// bookkeeping.
    pub fn into_packet(self) -> (r: Packet)
        ensures
            r@.reliability == self.rel_data.spec_reliability(),
            r@.data == self@.data,
    {
        Packet { reliability: self.rel_data.to_reliability(), data: self.data }
    }
}

/// The header bits of a sub-packet, before alignment and payload: message
/// number, reliability tag, split flag and header, and the payload length
/// in bits as a compressed integer.
pub open spec fn packet_header_bits(p: RakPacketV) -> Seq<bool> {
    u32_le_bits(p.message_number) + rel_bits(p.rel_data) + (match p.split_packet_info {
        None => seq![false],
        Some(info) => seq![true] + split_bits(info),
    }) + comp_u16_bits((p.data.len() * 8) as u16)
}

/// The full encoding of a sub-packet serialized at absolute bit position
/// `pos`: the header, zero padding to the next byte boundary, then the
/// payload bytes.
pub open spec fn packet_bits(p: RakPacketV, pos: int) -> Seq<bool> {
    let h = packet_header_bits(p);
    h + Seq::new(pad_len(pos + h.len()) as nat, |i: int| false) + crate::bitio::bytes_bits(p.data)
}

/// Decoding one sub-packet from the bits at `pos`. The payload length
/// field counts bits; `ceil(length / 8)` bytes follow the alignment gap.
pub open spec fn parse_packet(s: Seq<bool>, pos: int) -> Option<(RakPacketV, int)> {
    if pos + 32 <= s.len() {
        let message_number = bits_u32(s, pos);
        match parse_rel(s, pos + 32) {
            Some((rd, p2)) => {
                if p2 < s.len() {
                    let has_split = s[p2];
                    if has_split {
                        match parse_split(s, p2 + 1) {
                            Some((info, p4)) => parse_packet_tail(
                                s,
                                p4,
                                message_number,
                                rd,
                                Some(info),
                            ),
                            None => None,
                        }
                    } else {
                        parse_packet_tail(s, p2 + 1, message_number, rd, None)
                    }
                } else {
                    None
                }
            },
            None => None,
        }
    } else {
        None
    }
}

/// The tail of a sub-packet: the compressed bit length, the alignment
/// gap, and the payload bytes.
pub open spec fn parse_packet_tail(
    s: Seq<bool>,
    pos: int,
    message_number: u32,
    rel_data: ReliabilityData,
    split_packet_info: Option<SplitPacketInfo>,
) -> Option<(RakPacketV, int)> {
    match parse_comp_u16(s, pos) {
        Some((length, p6)) => {
            let p7 = p6 + pad_len(p6);
            let nbytes = (length + 7) / 8;
            if p7 + 8 * nbytes <= s.len() {
                Some(
                    (
                        RakPacketV {
                            message_number,
                            rel_data,
                            split_packet_info,
                            data: Seq::new(nbytes as nat, |i: int| bits_byte(s, p7 + 8 * i)),
                        },
                        p7 + 8 * nbytes,
                    ),
                )
            } else {
                None
            }
        },
        None => None,
    }
}

/// The error produced when `parse_packet` fails at `pos`. Reliability
/// errors keep their kind; every other failure is a truncation.
pub open spec fn packet_err(s: Seq<bool>, pos: int) -> DecodeError {
    if pos + 32 > s.len() {
        DecodeError::Truncated
    } else {
        match parse_rel(s, pos + 32) {
            Some((rd, p2)) => DecodeError::Truncated,
            None => rel_err(s, pos + 32),
        }
    }
}

impl RaknetPacket {
    /// Appends the sub-packet's encoding to the writer.
    pub fn serialize(&self, w: &mut BitWriter)
        requires
            self.data@.len() <= 8191,
        ensures
            final(w)@ == old(w)@ + packet_bits(self@, old(w)@.len() as int),
    {
        let ghost start = w@;
        w.write_u32(self.message_number);
        self.rel_data.serialize(w);
        match &self.split_packet_info {
            None => {
                w.write_bit(false);
            },
            Some(info) => {
                w.write_bit(true);
                info.serialize(w);
            },
        }
        Compressed::<u16>((self.data.len() as u16) * 8).serialize(w);
        proof {
            assert((self.data@.len() * 8) as u16 == (self.data@.len() as u16) * 8);
            assert(w@ =~= start + packet_header_bits(self@));
        }
        w.align();
        w.write_bytes(self.data.as_slice());
        proof {
            assert(w@ =~= start + packet_bits(self@, start.len() as int));
        }
    }

    /// Reads one sub-packet from the reader.
    pub fn deserialize(r: &mut BitReader<'_>) -> (res: Result<RaknetPacket, DecodeError>)
        requires
            old(r).wf(),
        ensures
            final(r).wf(),
            final(r).data@ == old(r).data@,
            match parse_packet(old(r).bits(), old(r).pos as int) {
                Some((p, np)) => res matches Ok(pkt) && pkt@ == p && final(r).pos == np,
                None => res matches Err(e) && e == packet_err(old(r).bits(), old(r).pos as int),
            },
    {
        let message_number = match r.read_u32() {
            None => {
                return Err(DecodeError::Truncated);
            },
            Some(v) => v,
        };
        let rel_data = match ReliabilityData::deserialize(r) {
            Err(e) => {
                return Err(e);
            },
            Ok(rd) => rd,
        };
        let has_split = match r.read_bit() {
            None => {
                return Err(DecodeError::Truncated);
            },
            Some(b) => b,
        };
        let split_packet_info: Option<SplitPacketInfo>;
        if has_split {
            split_packet_info = match SplitPacketInfo::deserialize(r) {
                None => {
                    return Err(DecodeError::Truncated);
                },
                Some(info) => Some(info),
            };
        } else {
            split_packet_info = None;
        }
        let length = match Compressed::<u16>::deserialize(r) {
            None => {
                return Err(DecodeError::Truncated);
            },
            Some(c) => c.0,
        };
        r.align();
        let nbytes = ((length as usize) + 7) / 8;
        let data = match r.read_bytes(nbytes) {
            None => {
                return Err(DecodeError::Truncated);
            },
            Some(v) => v,
        };
        Ok(RaknetPacket { message_number, rel_data, split_packet_info, data })
    }
}

} // verus!
