//! The legacy receive engine: classify, acknowledge, reassemble split
//! payloads, enforce per-mode ordering, and detect disconnects.
//!
//! The whole engine is specified as a transition system over `RecvV`:
//! `step` describes what one wire sub-packet does to the state, and
//! `process_seq` folds a datagram's packets through it. The executable
//! engine is proved to follow that fold exactly.

use std::collections::HashMap;

use vstd::prelude::*;

use crate::bitio::BitReader;
use crate::bridge::{MessageType, Packet, PacketV};
use crate::packet::{
    parse_packet, packet_err, DecodeError, RakPacketV, RaknetPacket, ReliabilityData,
};
use crate::rangelist::{ranges_contain, RangeList};

verus! {

broadcast use vstd::std_specs::hash::group_hash_axioms;

/// The increment all four protocol counters use: wraps to zero at the top.
pub open spec fn wrap_inc(x: u32) -> u32 {
    if x == 0xffff_ffff {
        0u32
    } else {
        (x + 1) as u32
    }
}

/// The modular distance from `b` up to `a`.
pub open spec fn wrap_delta(a: u32, b: u32) -> int {
    if a >= b {
        a - b
    } else {
        a - b + 0x1_0000_0000
    }
}

/// The forward window: `a` counts as at-or-after `b` when the modular
/// distance from `b` to `a` is below half the counter space.
pub open spec fn in_window(a: u32, b: u32) -> bool {
    wrap_delta(a, b) < 0x8000_0000
}

fn wrap_inc_exec(x: u32) -> (r: u32)
    ensures
        r == wrap_inc(x),
{
    if x == 0xffff_ffff {
        0
    } else {
        x + 1
    }
}

fn in_window_exec(a: u32, b: u32) -> (r: bool)
    ensures
        r == in_window(a, b),
{
    let d: u64 = if a >= b {
        (a - b) as u64
    } else {
        a as u64 + 0x1_0000_0000u64 - b as u64
    };
    d < 0x8000_0000
}

/// The shadow of one slot vector in the split-packet queue.
pub open spec fn parts_view(v: Seq<Option<Vec<u8>>>) -> Seq<Option<Seq<u8>>> {
    Seq::new(
        v.len(),
        |i: int|
            match v[i] {
                Some(d) => Some(d@),
                None => None,
            },
    )
}

/// The mathematical shadow of a `ReceivePart`.
#[verifier::ext_equal]
pub struct RecvV {
    pub unrel_seq_index: u32,
    pub rel_ord_index: u32,
    pub out_of_order: Map<u32, PacketV>,
    pub splits: Map<u16, Seq<Option<Seq<u8>>>>,
}

/// Receive-side state of one legacy connection.
pub struct ReceivePart {
    /// Highest observed unreliable-sequenced ordinal, plus one.
    pub unrel_seq_index: u32,
    /// Next expected reliable-ordered ordinal.
    pub rel_ord_index: u32,
    /// Reliable-ordered packets that arrived early, keyed by ordinal.
    pub out_of_order_packets: HashMap<u32, Packet>,
    /// Partially reassembled split payloads, keyed by split id.
    pub split_packet_queue: HashMap<u16, Vec<Option<Vec<u8>>>>,
}

impl View for ReceivePart {
    type V = RecvV;

    open spec fn view(&self) -> RecvV {
        RecvV {
            unrel_seq_index: self.unrel_seq_index,
            rel_ord_index: self.rel_ord_index,
            out_of_order: self.out_of_order_packets@.map_values(|p: Packet| p@),
            splits: self.split_packet_queue@.map_values(|v: Vec<Option<Vec<u8>>>| parts_view(v@)),
        }
    }
}

/// The state a fresh connection starts in.
pub open spec fn recv_init() -> RecvV {
    RecvV {
        unrel_seq_index: 0,
        rel_ord_index: 0,
        out_of_order: Map::empty(),
        splits: Map::empty(),
    }
}

impl Default for ReceivePart {
    /// A fresh receive engine: counters at zero, no queued packets.
    fn default() -> (r: ReceivePart)
        ensures
            r@ == recv_init(),
    {
        let r = ReceivePart {
            unrel_seq_index: 0,
            rel_ord_index: 0,
            out_of_order_packets: HashMap::new(),
            split_packet_queue: HashMap::new(),
        };
        proof {
            assert(r@.out_of_order =~= recv_init().out_of_order);
            assert(r@.splits =~= recv_init().splits);
            assert(r@ =~= recv_init());
        }
        r
    }
}

/// True when every slot of a split entry has arrived.
pub open spec fn all_some(parts: Seq<Option<Seq<u8>>>) -> bool {
    forall|i: int| 0 <= i < parts.len() ==> (#[trigger] parts[i]) is Some
}

/// The reassembled payload: all filled slots, in index order.
pub open spec fn concat_parts(parts: Seq<Option<Seq<u8>>>) -> Seq<u8>
    decreases parts.len(),
{
    if parts.len() == 0 {
        Seq::empty()
    } else {
        (match parts[0] {
            Some(d) => d,
            None => Seq::empty(),
        }) + concat_parts(parts.drop_first())
    }
}

/// Feeding one sub-packet into the split queue: `None` is a fatal header
/// (a chunk count below two, or an index outside the entry); otherwise
/// the new queue plus the payload once it is complete.
pub open spec fn apply_split(splits: Map<u16, Seq<Option<Seq<u8>>>>, p: RakPacketV) -> Option<
    (Map<u16, Seq<Option<Seq<u8>>>>, Option<Seq<u8>>),
> {
    match p.split_packet_info {
        None => Some((splits, Some(p.data))),
        Some(info) => {
            if info.count <= 1 {
                None
            } else if !splits.contains_key(info.id) {
                if info.index >= info.count {
                    None
                } else {
                    let parts = Seq::new(info.count as nat, |i: int| None::<Seq<u8>>).update(
                        info.index as int,
                        Some(p.data),
                    );
                    Some((splits.insert(info.id, parts), None))
                }
            } else {
                let parts0 = splits[info.id];
                if info.index >= parts0.len() {
                    None
                } else {
                    let parts = parts0.update(info.index as int, Some(p.data));
                    if all_some(parts) {
                        Some((splits.remove(info.id), Some(concat_parts(parts))))
                    } else {
                        Some((splits.insert(info.id, parts), None))
                    }
                }
            }
        },
    }
}

/// Releasing consecutive queued packets starting at `idx`: the released
/// packets, the remaining queue, and the next expected ordinal.
pub open spec fn drain(ooo: Map<u32, PacketV>, idx: u32) -> (Seq<PacketV>, Map<u32, PacketV>, u32)
    decreases ooo.dom().len(),
    when ooo.dom().finite()
{
    if ooo.dom().finite() && ooo.contains_key(idx) {
        let r = drain(ooo.remove(idx), wrap_inc(idx));
        (seq![ooo[idx]] + r.0, r.1, r.2)
    } else {
        (Seq::empty(), ooo, idx)
    }
}

/// One reassembled packet run through the per-mode ordering rules: the
/// new state and the packets delivered upward.
pub open spec fn order_step(st: RecvV, rd: ReliabilityData, pkt: PacketV) -> (RecvV, Seq<PacketV>) {
    match rd {
        ReliabilityData::UnreliableSequenced(ord) => {
            if in_window(ord, st.unrel_seq_index) {
                (RecvV { unrel_seq_index: wrap_inc(ord), ..st }, seq![pkt])
            } else {
                (st, Seq::empty())
            }
        },
        ReliabilityData::ReliableOrdered(ord) => {
            if ord == st.rel_ord_index {
                let r = drain(st.out_of_order, wrap_inc(ord));
                (RecvV { rel_ord_index: r.2, out_of_order: r.1, ..st }, seq![pkt] + r.0)
            } else if in_window(ord, st.rel_ord_index) {
                (RecvV { out_of_order: st.out_of_order.insert(ord, pkt), ..st }, Seq::empty())
            } else {
                (st, Seq::empty())
            }
        },
        _ => (st, seq![pkt]),
    }
}

/// What one wire sub-packet does to the connection: acknowledgements are
/// tracked separately; this covers reassembly, disconnect detection and
/// ordering. `None` is a fatal split header.
pub open spec fn step(st: RecvV, closed: bool, p: RakPacketV) -> Option<(RecvV, bool, Seq<PacketV>)> {
    match apply_split(st.splits, p) {
        None => None,
        Some((splits2, done)) => {
            let st1 = RecvV { splits: splits2, ..st };
            match done {
                None => Some((st1, closed, Seq::empty())),
                Some(data) => {
                    if data.len() >= 1 && data[0]
                        == MessageType::DisconnectNotification.spec_id() {
                        Some((st1, true, Seq::empty()))
                    } else {
                        let r = order_step(
                            st1,
                            p.rel_data,
                            PacketV { reliability: p.rel_data.spec_reliability(), data },
                        );
                        Some((r.0, closed, r.1))
                    }
                },
            }
        },
    }
}

/// A whole datagram's sub-packets folded through `step`.
pub open spec fn process_seq(st: RecvV, closed: bool, ps: Seq<RakPacketV>) -> Option<
    (RecvV, bool, Seq<PacketV>),
>
    decreases ps.len(),
{
    if ps.len() == 0 {
        Some((st, closed, Seq::empty()))
    } else {
        match step(st, closed, ps[0]) {
            None => None,
            Some((st1, c1, out1)) => match process_seq(st1, c1, ps.drop_first()) {
                None => None,
                Some((st2, c2, out2)) => Some((st2, c2, out1 + out2)),
            },
        }
    }
}

/// True of the two reliability modes whose message numbers are
/// acknowledged to the peer.
pub open spec fn is_reliable_rd(rd: ReliabilityData) -> bool {
    rd is Reliable || rd is ReliableOrdered
}

/// True when some packet of `ps` is reliable and carries message number
/// `x`.
pub open spec fn has_reliable_msg(ps: Seq<RakPacketV>, x: u32) -> bool {
    exists|j: int|
        0 <= j < ps.len() && is_reliable_rd((#[trigger] ps[j]).rel_data) && ps[j].message_number
            == x
}

/// The shadows of a vector of wire sub-packets.
pub open spec fn rak_views(ps: Seq<RaknetPacket>) -> Seq<RakPacketV> {
    ps.map_values(|p: RaknetPacket| p@)
}

/// The shadows of a vector of abstract packets.
pub open spec fn packet_views(ps: Seq<Packet>) -> Seq<PacketV> {
    ps.map_values(|p: Packet| p@)
}

/// Greedy decoding of sub-packets until the data runs out: the decoded
/// packets and, if decoding hit a malformed field rather than the end of
/// the data, the fatal error.
pub open spec fn parse_packet_list(s: Seq<bool>, pos: int) -> (Seq<RakPacketV>, Option<DecodeError>)
    decreases s.len() - pos,
{
    match parse_packet(s, pos) {
        None => {
            let e = packet_err(s, pos);
            (
                Seq::empty(),
                if e == DecodeError::Truncated {
                    None
                } else {
                    Some(e)
                },
            )
        },
        Some((p, np)) => {
            if pos < np <= s.len() {
                let r = parse_packet_list(s, np);
                (seq![p] + r.0, r.1)
            } else {
                (Seq::empty(), None)
            }
        },
    }
}

/// A successful sub-packet parse always makes progress and stays inside
/// the data.
pub proof fn lemma_parse_packet_progress(s: Seq<bool>, pos: int)
    requires
        parse_packet(s, pos) is Some,
    ensures
        ({
            let (p, np) = parse_packet(s, pos)->0;
            pos < np <= s.len()
        }),
{
}

impl ReceivePart {
    /// Decodes sub-packets until the reader is exhausted. Trailing
    /// partial data ends decoding silently; a malformed field is fatal
    /// for the whole datagram.
    pub fn parse_packets(r: &mut BitReader<'_>) -> (res: Result<Vec<RaknetPacket>, DecodeError>)
        requires
            old(r).wf(),
        ensures
            final(r).wf(),
            final(r).data@ == old(r).data@,
            ({
                let (ps, fatal) = parse_packet_list(old(r).bits(), old(r).pos as int);
                match fatal {
                    Some(e) => res matches Err(e2) && e2 == e,
                    None => res matches Ok(v) && rak_views(v@) == ps,
                }
            }),
    {
        let ghost s = old(r).bits();
        let mut out: Vec<RaknetPacket> = Vec::new();
        proof {
            let r0 = parse_packet_list(s, r.pos as int);
            assert(rak_views(out@) + r0.0 =~= r0.0);
        }
        loop
            invariant
                r.wf(),
                r.data@ == old(r).data@,
                s == r.bits(),
                ({
                    let full = parse_packet_list(s, old(r).pos as int);
                    let rem = parse_packet_list(s, r.pos as int);
                    full.0 == rak_views(out@) + rem.0 && full.1 == rem.1
                }),
            decreases s.len() - r.pos,
        {
            let ghost pk = r.pos as int;
            match RaknetPacket::deserialize(r) {
                Ok(p) => {
                    proof {
                        lemma_parse_packet_progress(s, pk);
                        let rem_pre = parse_packet_list(s, pk);
                        let rem_post = parse_packet_list(s, r.pos as int);
                        assert(out@.push(p) =~= out@.push(p));
                        assert(rak_views(out@.push(p)) =~= rak_views(out@).push(p@));
                        assert(rak_views(out@) + rem_pre.0 =~= (rak_views(out@) + seq![p@])
                            + rem_post.0);
                    }
                    out.push(p);
                },
                Err(e) => {
                    if matches!(e, DecodeError::Truncated) {
                        return Ok(out);
                    }
                    return Err(e);
                },
            }
        }
    }
}

/// One more delivered packet appends its shadow.
proof fn lemma_packet_views_push2(ps: Seq<Packet>)
    requires
        ps.len() > 0,
    ensures
        packet_views(ps) == packet_views(ps.drop_last()).push(ps.last()@),
{
    assert(packet_views(ps) =~= packet_views(ps.drop_last()).push(ps.last()@));
}

/// `map_values` keeps the domain.
proof fn lemma_map_values_dom<K, A, B>(m: Map<K, A>, f: spec_fn(A) -> B)
    ensures
        m.map_values(f).dom() == m.dom(),
{
    assert(m.map_values(f).dom() =~= m.dom());
}

/// `map_values` commutes with `insert`.
proof fn lemma_map_values_insert<K, A, B>(m: Map<K, A>, f: spec_fn(A) -> B, k: K, v: A)
    ensures
        m.insert(k, v).map_values(f) == m.map_values(f).insert(k, f(v)),
{
    assert(m.insert(k, v).map_values(f) =~= m.map_values(f).insert(k, f(v)));
}

/// `map_values` commutes with `remove`.
proof fn lemma_map_values_remove<K, A, B>(m: Map<K, A>, f: spec_fn(A) -> B, k: K)
    ensures
        m.remove(k).map_values(f) == m.map_values(f).remove(k),
{
    assert(m.remove(k).map_values(f) =~= m.map_values(f).remove(k));
}

/// Like `lemma_ranges_count_split` for payload concatenation: one more
/// slot appends its bytes.
proof fn lemma_concat_parts_snoc(parts: Seq<Option<Seq<u8>>>, i: int)
    requires
        0 <= i < parts.len(),
    ensures
        concat_parts(parts.take(i + 1)) == concat_parts(parts.take(i)) + (match parts[i] {
            Some(d) => d,
            None => Seq::<u8>::empty(),
        }),
    decreases i,
{
    if i == 0 {
        let v = match parts[0] {
            Some(d) => d,
            None => Seq::<u8>::empty(),
        };
        assert(parts.take(1).drop_first() =~= Seq::<Option<Seq<u8>>>::empty());
        assert(parts.take(1)[0] == parts[0]);
        assert(parts.take(1).len() == 1);
        assert(concat_parts(parts.take(1).drop_first()) == Seq::<u8>::empty());
        assert(concat_parts(parts.take(1)) == v + Seq::<u8>::empty());
        assert(concat_parts(parts.take(0)) == Seq::<u8>::empty());
        assert(v + Seq::<u8>::empty() =~= Seq::<u8>::empty() + v);
    } else {
        lemma_concat_parts_snoc(parts.drop_first(), i - 1);
        assert(parts.take(i + 1).drop_first() =~= parts.drop_first().take(i));
        assert(parts.take(i).drop_first() =~= parts.drop_first().take(i - 1));
        assert(parts.take(i + 1)[0] == parts[0]);
        assert(parts.take(i)[0] == parts[0]);
        assert(parts.drop_first()[i - 1] == parts[i]);
        let head = match parts[0] {
            Some(d) => d,
            None => Seq::<u8>::empty(),
        };
        let tail = match parts[i] {
            Some(d) => d,
            None => Seq::<u8>::empty(),
        };
        assert(head + (concat_parts(parts.drop_first().take(i - 1)) + tail) =~= (head
            + concat_parts(parts.drop_first().take(i - 1))) + tail);
    }
}


/// Appending one packet extends the set of acknowledged message numbers
/// by exactly its own, when it is reliable.
proof fn lemma_has_reliable_push(ps: Seq<RakPacketV>, p: RakPacketV)
    ensures
        forall|x: u32|
            has_reliable_msg(ps.push(p), x) <==> (has_reliable_msg(ps, x) || (is_reliable_rd(
                p.rel_data,
            ) && p.message_number == x)),
{
    assert forall|x: u32|
        has_reliable_msg(ps.push(p), x) <==> (has_reliable_msg(ps, x) || (is_reliable_rd(
            p.rel_data,
        ) && p.message_number == x)) by {
        if has_reliable_msg(ps.push(p), x) {
            let j = choose|j: int|
                0 <= j < ps.push(p).len() && is_reliable_rd(
                    (#[trigger] ps.push(p)[j]).rel_data,
                ) && ps.push(p)[j].message_number == x;
            if j < ps.len() {
                assert(ps[j] == ps.push(p)[j]);
            } else {
                assert(ps.push(p)[j] == p);
            }
        }
        if has_reliable_msg(ps, x) {
            let j = choose|j: int|
                0 <= j < ps.len() && is_reliable_rd((#[trigger] ps[j]).rel_data)
                    && ps[j].message_number == x;
            assert(ps.push(p)[j] == ps[j]);
        }
        if is_reliable_rd(p.rel_data) && p.message_number == x {
            assert(ps.push(p)[ps.len() as int] == p);
        }
    }
}

/// Peeling one packet off the front of a fold.
proof fn lemma_fold_step(
    st_top: RecvV,
    cl_top: bool,
    pv: RakPacketV,
    rest: Seq<RakPacketV>,
    st_new: RecvV,
    cl_new: bool,
    delta: Seq<PacketV>,
)
    requires
        step(st_top, cl_top, pv) == Some((st_new, cl_new, delta)),
    ensures
        match process_seq(st_top, cl_top, seq![pv] + rest) {
            Some((stf, clf, outf)) => process_seq(st_new, cl_new, rest) matches Some(r2) && stf
                == r2.0 && clf == r2.1 && outf == delta + r2.2,
            None => process_seq(st_new, cl_new, rest) is None,
        },
{
    let ps = seq![pv] + rest;
    assert(ps[0] == pv);
    assert(ps.drop_first() =~= rest);
}

impl ReceivePart {
    /// Runs one datagram's decoded sub-packets through the engine:
    /// every reliable message number enters `acks`, split payloads are
    /// reassembled, a disconnect notification sets `closed`, and the
    /// remaining packets are delivered exactly as the transition system
    /// `process_seq` prescribes.
    #[verifier::loop_isolation(false)]
    #[verifier::rlimit(100)]
    pub fn process_incoming_packets(
        &mut self,
        rak_packets: Vec<RaknetPacket>,
        acks: &mut RangeList,
        closed: &mut bool,
    ) -> (res: Result<Vec<Packet>, DecodeError>)
        requires
            old(acks).wf(),
        ensures
            final(acks).wf(),
            match process_seq(old(self)@, *old(closed), rak_views(rak_packets@)) {
                Some((stf, clf, outf)) => {
                    &&& res matches Ok(v) && packet_views(v@) == outf
                    &&& final(self)@ == stf
                    &&& *final(closed) == clf
                    &&& forall|x: u32|
                        #[trigger] ranges_contain(final(acks)@, x) <==> (ranges_contain(
                            old(acks)@,
                            x,
                        ) || has_reliable_msg(rak_views(rak_packets@), x))
                },
                None => res is Err,
            },
    {
        let ghost st0 = self@;
        let ghost cl0 = *closed;
        let ghost full = rak_views(rak_packets@);
        let mut input = rak_packets;
        let mut out: Vec<Packet> = Vec::new();
        let ghost mut consumed: Seq<RakPacketV> = Seq::empty();
        proof {
            assert(full =~= consumed + rak_views(input@));
            if process_seq(st0, cl0, full) is Some {
                let f = process_seq(st0, cl0, full)->0;
                assert(f.2 =~= packet_views(out@) + f.2);
            }
        }
        while input.len() > 0
            invariant
                acks.wf(),
                full == consumed + rak_views(input@),
                match process_seq(st0, cl0, full) {
                    Some((stf, clf, outf)) => process_seq(self@, *closed, rak_views(input@)) matches
                        Some(r2) && stf == r2.0 && clf == r2.1 && outf == packet_views(out@) + r2.2,
                    None => process_seq(self@, *closed, rak_views(input@)) is None,
                },
                forall|x: u32|
                    #[trigger] ranges_contain(acks@, x) <==> (ranges_contain(old(acks)@, x)
                        || has_reliable_msg(consumed, x)),
            decreases input.len(),
        {
            let ghost st_top = self@;
            let ghost cl_top = *closed;
            let ghost out_top = out@;
            let ghost input_pre = input@;
            let p = input.remove(0);
            let ghost pv = p@;
            proof {
                assert(rak_views(input_pre)[0] == pv);
                assert(rak_views(input_pre) =~= seq![pv] + rak_views(input@));
            }
            let RaknetPacket { message_number, rel_data, split_packet_info, data } = p;
            // Reliable message numbers are acknowledged right away,
            // whatever later becomes of the packet.
            match rel_data {
                ReliabilityData::Reliable | ReliabilityData::ReliableOrdered(_) => {
                    acks.insert(message_number);
                },
                _ => {},
            }
            proof {
                lemma_has_reliable_push(consumed, pv);
            }
            let ghost splits_top = st_top.splits;
            // Split reassembly: a chunk either completes a payload or is
            // queued; a malformed split header kills the datagram.
            let completed: Option<Vec<u8>>;
            match split_packet_info {
                None => {
                    completed = Some(data);
                },
                Some(info) => {
                    if info.count <= 1 {
                        proof {
                            assert(step(st_top, cl_top, pv) is None);
                            assert(process_seq(st_top, cl_top, rak_views(input_pre)) is None);
                        }
                        return Err(DecodeError::BadSplitCount);
                    }
                    let idx = info.index as usize;
                    match self.split_packet_queue.remove(&info.id) {
                        None => {
                            proof {
                                assert(!splits_top.contains_key(info.id));
                            }
                            if info.index >= info.count {
                                proof {
                                    assert(step(st_top, cl_top, pv) is None);
                                    assert(process_seq(st_top, cl_top, rak_views(input_pre))
                                        is None);
                                }
                                return Err(DecodeError::BadSplitIndex);
                            }
                            let cnt = info.count as usize;
                            let mut parts: Vec<Option<Vec<u8>>> = Vec::new();
                            let mut j: usize = 0;
                            while j < cnt
                                invariant
                                    j <= cnt,
                                    parts@.len() == j,
                                    forall|t: int| 0 <= t < j ==> (#[trigger] parts@[t]) is None,
                                decreases cnt - j,
                            {
                                parts.push(None);
                                j = j + 1;
                            }
                            parts[idx] = Some(data);
                            let ghost stored = parts_view(parts@);
                            proof {
                                assert(stored =~= Seq::new(
                                    info.count as nat,
                                    |i: int| None::<Seq<u8>>,
                                ).update(info.index as int, Some(pv.data)));
                                lemma_map_values_insert(
                                    self.split_packet_queue@,
                                    |v: Vec<Option<Vec<u8>>>| parts_view(v@),
                                    info.id,
                                    parts,
                                );
                                lemma_map_values_remove(
                                    old(self).split_packet_queue@,
                                    |v: Vec<Option<Vec<u8>>>| parts_view(v@),
                                    info.id,
                                );
                            }
                            self.split_packet_queue.insert(info.id, parts);
                            proof {
                                assert(self@.splits =~= splits_top.insert(info.id, stored));
                            }
                            completed = None;
                        },
                        Some(mut parts) => {
                            proof {
                                assert(splits_top.contains_key(info.id));
                                assert(splits_top[info.id] == parts_view(parts@));
                            }
                            if idx >= parts.len() {
                                proof {
                                    assert(info.index >= parts_view(parts@).len());
                                    assert(step(st_top, cl_top, pv) is None);
                                    assert(process_seq(st_top, cl_top, rak_views(input_pre))
                                        is None);
                                }
                                return Err(DecodeError::BadSplitIndex);
                            }
                            let ghost parts0 = parts_view(parts@);
                            parts[idx] = Some(data);
                            let ghost updated = parts_view(parts@);
                            proof {
                                assert(updated =~= parts0.update(info.index as int, Some(pv.data)));
                            }
                            let mut ready = true;
                            let mut j: usize = 0;
                            proof {
                                assert(updated.take(0) =~= Seq::<Option<Seq<u8>>>::empty());
                            }
                            while j < parts.len()
                                invariant
                                    j <= parts@.len(),
                                    updated == parts_view(parts@),
                                    ready == all_some(updated.take(j as int)),
                                decreases parts@.len() - j,
                            {
                                let ghost ready0 = ready;
                                if parts[j].is_none() {
                                    ready = false;
                                }
                                proof {
                                    assert(updated.take(j as int + 1) =~= updated.take(
                                        j as int,
                                    ).push(updated[j as int]));
                                    if ready {
                                        assert forall|t: int|
                                            0 <= t < j + 1 implies (#[trigger] updated.take(
                                            j as int + 1,
                                        )[t]) is Some by {
                                            if t < j {
                                                assert(updated.take(j as int)[t] is Some);
                                            }
                                        }
                                    } else {
                                        if ready0 {
                                            assert(updated.take(j as int + 1)[j as int] is None);
                                        } else {
                                            let w = choose|t: int|
                                                0 <= t < j && !((#[trigger] updated.take(
                                                    j as int,
                                                )[t]) is Some);
                                            assert(!(updated.take(j as int + 1)[w] is Some));
                                        }
                                    }
                                }
                                j = j + 1;
                            }
                            proof {
                                assert(updated.take(parts@.len() as int) =~= updated);
                            }
                            if ready {
                                let mut assembled: Vec<u8> = Vec::new();
                                let mut j2: usize = 0;
                                proof {
                                    assert(assembled@ =~= concat_parts(updated.take(0)));
                                }
                                while j2 < parts.len()
                                    invariant
                                        j2 <= parts@.len(),
                                        updated == parts_view(parts@),
                                        assembled@ == concat_parts(updated.take(j2 as int)),
                                    decreases parts@.len() - j2,
                                {
                                    proof {
                                        lemma_concat_parts_snoc(updated, j2 as int);
                                    }
                                    match &parts[j2] {
                                        Some(d) => {
                                            let ghost abase = assembled@;
                                            let mut t: usize = 0;
                                            while t < d.len()
                                                invariant
                                                    t <= d@.len(),
                                                    assembled@ == abase + d@.take(t as int),
                                                decreases d@.len() - t,
                                            {
                                                assembled.push(d[t]);
                                                proof {
                                                    assert(abase + d@.take(t as int + 1) =~= (abase
                                                        + d@.take(t as int)).push(d@[t as int]));
                                                }
                                                t = t + 1;
                                            }
                                            proof {
                                                assert(d@.take(d@.len() as int) =~= d@);
                                            }
                                        },
                                        None => {
                                            proof {
                                                assert(updated[j2 as int] is Some);
                                                assert(false);
                                            }
                                        },
                                    }
                                    j2 = j2 + 1;
                                }
                                proof {
                                    assert(updated.take(parts@.len() as int) =~= updated);
                                    lemma_map_values_remove(
                                        old(self).split_packet_queue@,
                                        |v: Vec<Option<Vec<u8>>>| parts_view(v@),
                                        info.id,
                                    );
                                    assert(self@.splits =~= splits_top.remove(info.id));
                                }
                                completed = Some(assembled);
                            } else {
                                proof {
                                    lemma_map_values_insert(
                                        self.split_packet_queue@,
                                        |v: Vec<Option<Vec<u8>>>| parts_view(v@),
                                        info.id,
                                        parts,
                                    );
                                    lemma_map_values_remove(
                                        old(self).split_packet_queue@,
                                        |v: Vec<Option<Vec<u8>>>| parts_view(v@),
                                        info.id,
                                    );
                                }
                                self.split_packet_queue.insert(info.id, parts);
                                proof {
                                    assert(self@.splits =~= splits_top.insert(info.id, updated));
                                }
                                completed = None;
                            }
                        },
                    }
                },
            }
            let ghost st1 = RecvV { splits: self@.splits, ..st_top };
            proof {
                assert(self@ =~= st1);
            }
            let ghost mut delta: Seq<PacketV> = Seq::empty();
            match completed {
                None => {
                    proof {
                        assert(step(st_top, cl_top, pv) == Some((st1, cl_top, delta)));
                    }
                },
                Some(data2) => {
                    let ghost data2v = data2@;
                    proof {
                        assert(apply_split(splits_top, pv) matches Some((sp2, done)) && sp2
                            == self@.splits && done == Some(data2v));
                    }
                    if data2.len() >= 1 && data2[0] == MessageType::DisconnectNotification.id() {
                        *closed = true;
                        proof {
                            assert(step(st_top, cl_top, pv) == Some((st1, true, delta)));
                        }
                    } else {
                        let ghost pktv = PacketV {
                            reliability: rel_data.spec_reliability(),
                            data: data2v,
                        };
                        match rel_data {
                            ReliabilityData::UnreliableSequenced(ord) => {
                                if in_window_exec(ord, self.unrel_seq_index) {
                                    self.unrel_seq_index = wrap_inc_exec(ord);
                                    out.push(
                                        Packet {
                                            reliability: rel_data.to_reliability(),
                                            data: data2,
                                        },
                                    );
                                    proof {
                                        delta = seq![pktv];
                                        lemma_packet_views_push2(out@);
                                        assert(out@.drop_last() =~= out_top);
                                        assert(packet_views(out_top).push(pktv) =~= packet_views(
                                            out_top,
                                        ) + delta);
                                        assert(self@ =~= RecvV {
                                            unrel_seq_index: wrap_inc(ord),
                                            ..st1
                                        });
                                        assert(step(st_top, cl_top, pv) == Some(
                                            (self@, cl_top, delta),
                                        ));
                                    }
                                } else {
                                    proof {
                                        assert(step(st_top, cl_top, pv) == Some(
                                            (st1, cl_top, delta),
                                        ));
                                    }
                                }
                            },
                            ReliabilityData::ReliableOrdered(ord) => {
                                if ord == self.rel_ord_index {
                                    out.push(
                                        Packet {
                                            reliability: rel_data.to_reliability(),
                                            data: data2,
                                        },
                                    );
                                    proof {
                                        lemma_packet_views_push2(out@);
                                        assert(out@.drop_last() =~= out_top);
                                        assert(packet_views(out@) == packet_views(out_top).push(
                                            pktv,
                                        ));
                                    }
                                    self.rel_ord_index = wrap_inc_exec(ord);
                                    let ghost ooo_start = self@.out_of_order;
                                    let ghost idx_start = self.rel_ord_index;
                                    let ghost dtrip = drain(ooo_start, idx_start);
                                    let ghost out_mid = out@;
                                    let ghost mut dseq: Seq<PacketV> = Seq::empty();
                                    proof {
                                        assert(dtrip.0 =~= dseq + drain(
                                            self@.out_of_order,
                                            self.rel_ord_index,
                                        ).0);
                                        assert(packet_views(out@) =~= packet_views(out_mid) + dseq);
                                    }
                                    loop
                                        invariant
                                            dtrip.0 == dseq + drain(
                                                self@.out_of_order,
                                                self.rel_ord_index,
                                            ).0,
                                            dtrip.1 == drain(
                                                self@.out_of_order,
                                                self.rel_ord_index,
                                            ).1,
                                            dtrip.2 == drain(
                                                self@.out_of_order,
                                                self.rel_ord_index,
                                            ).2,
                                            packet_views(out@) == packet_views(out_mid) + dseq,
                                            self@.splits == st1.splits,
                                            self@.unrel_seq_index == st1.unrel_seq_index,
                                        decreases self.out_of_order_packets@.dom().len(),
                                    {
                                        let nxt = self.rel_ord_index;
                                        let ghost ooo_cur = self@.out_of_order;
                                        proof {
                                            lemma_map_values_dom(
                                                self.out_of_order_packets@,
                                                |pk: Packet| pk@,
                                            );
                                            assert(ooo_cur.dom().finite());
                                        }
                                        match self.out_of_order_packets.remove(&nxt) {
                                            None => {
                                                proof {
                                                    assert(!ooo_cur.contains_key(nxt));
                                                    assert(drain(ooo_cur, nxt) == (
                                                        Seq::<PacketV>::empty(),
                                                        ooo_cur,
                                                        nxt,
                                                    ));
                                                    assert(dtrip.0 =~= dseq);
                                                }
                                                break ;
                                            },
                                            Some(q) => {
                                                let ghost out_pre = out@;
                                                let ghost dseq_pre = dseq;
                                                let ghost qv = q@;
                                                proof {
                                                    assert(ooo_cur.contains_key(nxt));
                                                    assert(qv == ooo_cur[nxt]);
                                                    lemma_map_values_remove(
                                                        old(self).out_of_order_packets@,
                                                        |pk: Packet| pk@,
                                                        nxt,
                                                    );
                                                    assert(self@.out_of_order =~= ooo_cur.remove(
                                                        nxt,
                                                    ));
                                                }
                                                out.push(q);
                                                self.rel_ord_index = wrap_inc_exec(nxt);
                                                proof {
                                                    let rec = drain(
                                                        ooo_cur.remove(nxt),
                                                        wrap_inc(nxt),
                                                    );
                                                    assert(drain(ooo_cur, nxt).0 == seq![
                                                        ooo_cur[nxt],
                                                    ] + rec.0);
                                                    dseq = dseq.push(qv);
                                                    assert(dseq + rec.0 =~= dseq_pre + (seq![qv]
                                                        + rec.0));
                                                    lemma_packet_views_push2(out@);
                                                    assert(out@.drop_last() =~= out_pre);
                                                    assert(packet_views(out_pre).push(qv)
                                                        =~= packet_views(out_mid) + dseq);
                                                }
                                            },
                                        }
                                    }
                                    proof {
                                        delta = seq![pktv] + dseq;
                                        assert(packet_views(out_top).push(pktv) + dseq
                                            =~= packet_views(out_top) + delta);
                                        assert(self@ =~= RecvV {
                                            rel_ord_index: dtrip.2,
                                            out_of_order: dtrip.1,
                                            ..st1
                                        });
                                        assert(order_step(st1, rel_data, pktv) == (
                                            self@,
                                            seq![pktv] + dtrip.0,
                                        ));
                                        assert(dtrip.0 =~= dseq);
                                        assert(step(st_top, cl_top, pv) == Some(
                                            (self@, cl_top, delta),
                                        ));
                                    }
                                } else if in_window_exec(ord, self.rel_ord_index) {
                                    proof {
                                        lemma_map_values_insert(
                                            self.out_of_order_packets@,
                                            |pk: Packet| pk@,
                                            ord,
                                            Packet {
                                                reliability: rel_data.spec_reliability(),
                                                data: data2,
                                            },
                                        );
                                    }
                                    self.out_of_order_packets.insert(
                                        ord,
                                        Packet { reliability: rel_data.to_reliability(), data: data2 },
                                    );
                                    proof {
                                        assert(self@ =~= RecvV {
                                            out_of_order: st1.out_of_order.insert(ord, pktv),
                                            ..st1
                                        });
                                        assert(step(st_top, cl_top, pv) == Some(
                                            (self@, cl_top, delta),
                                        ));
                                    }
                                } else {
                                    proof {
                                        assert(step(st_top, cl_top, pv) == Some(
                                            (st1, cl_top, delta),
                                        ));
                                    }
                                }
                            },
                            _ => {
                                out.push(
                                    Packet { reliability: rel_data.to_reliability(), data: data2 },
                                );
                                proof {
                                    delta = seq![pktv];
                                    lemma_packet_views_push2(out@);
                                    assert(out@.drop_last() =~= out_top);
                                    assert(packet_views(out_top).push(pktv) =~= packet_views(
                                        out_top,
                                    ) + delta);
                                    assert(step(st_top, cl_top, pv) == Some((st1, cl_top, delta)));
                                }
                            },
                        }
                    }
                },
            }
            proof {
                assert(step(st_top, cl_top, pv) == Some((self@, *closed, delta)));
                assert(packet_views(out@) =~= packet_views(out_top) + delta);
                lemma_fold_step(st_top, cl_top, pv, rak_views(input@), self@, *closed, delta);
                if process_seq(st0, cl0, full) is Some {
                    let f = process_seq(st0, cl0, full)->0;
                    let r2 = process_seq(st_top, cl_top, rak_views(input_pre))->0;
                    let r3 = process_seq(self@, *closed, rak_views(input@))->0;
                    assert(f.2 == packet_views(out_top) + r2.2);
                    assert(r2.2 == delta + r3.2);
                    assert(packet_views(out_top) + (delta + r3.2) =~= (packet_views(out_top)
                        + delta) + r3.2);
                }
                consumed = consumed.push(pv);
                assert(full =~= consumed + rak_views(input@));
            }
        }
        proof {
            assert(rak_views(input@) =~= Seq::<RakPacketV>::empty());
            assert(process_seq(self@, *closed, rak_views(input@)) == Some(
                (self@, *closed, Seq::<PacketV>::empty()),
            ));
            assert(consumed =~= full);
            if process_seq(st0, cl0, full) is Some {
                let f = process_seq(st0, cl0, full)->0;
                assert(f.2 =~= packet_views(out@));
            }
        }
        Ok(out)
    }
}


} // verus!
