//! Bit-granular reading and writing over byte buffers.
//!
//! The wire format of the legacy protocol is bit-packed: single-bit flags,
//! 3-bit and 5-bit fields, and byte-aligned payloads all share one stream.
//! Bytes are consumed most-significant bit first; multi-byte integers are
//! little-endian byte-wise, each byte still most-significant bit first.

use vstd::prelude::*;

verus! {

/// True iff bit `i` (most-significant first) of byte `b` is set.
pub open spec fn bit_of_byte(b: u8, i: int) -> bool
    recommends
        0 <= i < 8,
{
    (b >> ((7 - i) as u8)) & 1 == 1
}

/// The eight bits of a byte, most-significant first.
pub open spec fn byte_bits(b: u8) -> Seq<bool> {
    Seq::new(8, |i: int| bit_of_byte(b, i))
}

/// The bit stream carried by a byte sequence.
pub open spec fn bytes_bits(s: Seq<u8>) -> Seq<bool> {
    Seq::new(8 * s.len(), |i: int| bit_of_byte(s[i / 8], i % 8))
}

/// The low `n` bits of `v`, most-significant first.
pub open spec fn low_bits(v: u8, n: int) -> Seq<bool>
    recommends
        0 <= n <= 8,
{
    Seq::new(n as nat, |i: int| (v >> ((n - 1 - i) as u8)) & 1 == 1)
}

/// The value of the `n` bits starting at `pos`, most-significant first.
pub open spec fn bits_val(s: Seq<bool>, pos: int, n: int) -> int
    decreases n,
{
    if n <= 0 {
        0
    } else {
        2 * bits_val(s, pos, n - 1) + (if s[pos + n - 1] {
            1int
        } else {
            0int
        })
    }
}

/// Two to the power `n`.
pub open spec fn two_pow(n: int) -> int
    decreases n,
{
    if n <= 0 {
        1
    } else {
        2 * two_pow(n - 1)
    }
}

/// The byte formed by the eight bits starting at `pos`.
pub open spec fn bits_byte(s: Seq<bool>, pos: int) -> u8 {
    bits_val(s, pos, 8) as u8
}

/// The little-endian `u16` formed by the sixteen bits starting at `pos`.
pub open spec fn bits_u16(s: Seq<bool>, pos: int) -> u16 {
    (bits_byte(s, pos) as u16) | ((bits_byte(s, pos + 8) as u16) << 8)
}

/// The little-endian `u32` formed by the thirty-two bits starting at `pos`.
pub open spec fn bits_u32(s: Seq<bool>, pos: int) -> u32 {
    (bits_byte(s, pos) as u32) | ((bits_byte(s, pos + 8) as u32) << 8) | ((bits_byte(
        s,
        pos + 16,
    ) as u32) << 16) | ((bits_byte(s, pos + 24) as u32) << 24)
}

/// The bits of a `u16`, low byte first.
pub open spec fn u16_le_bits(v: u16) -> Seq<bool> {
    byte_bits((v & 0xff) as u8) + byte_bits(((v >> 8) & 0xff) as u8)
}

/// The bits of a `u32`, low byte first.
pub open spec fn u32_le_bits(v: u32) -> Seq<bool> {
    byte_bits((v & 0xff) as u8) + byte_bits(((v >> 8) & 0xff) as u8) + byte_bits(
        ((v >> 16) & 0xff) as u8,
    ) + byte_bits(((v >> 24) & 0xff) as u8)
}

/// Number of padding bits needed to reach the next byte boundary after `n` bits.
pub open spec fn pad_len(n: int) -> int {
    (8 - n % 8) % 8
}

/// A bit stream padded with zero bits to a whole number of bytes.
pub open spec fn pad_to_byte(s: Seq<bool>) -> Seq<bool> {
    s + Seq::new(pad_len(s.len() as int) as nat, |i: int| false)
}

pub proof fn lemma_bits_val_bound(s: Seq<bool>, pos: int, n: int)
    ensures
        0 <= bits_val(s, pos, n) < two_pow(n),
    decreases n,
{
    if n > 0 {
        lemma_bits_val_bound(s, pos, n - 1);
    }
}

pub proof fn lemma_two_pow_8()
    ensures
        two_pow(3) == 8,
        two_pow(4) == 16,
        two_pow(5) == 32,
        two_pow(8) == 256,
{
    reveal_with_fuel(two_pow, 9);
}

pub proof fn lemma_two_pow_pos(n: int)
    ensures
        two_pow(n) >= 1,
    decreases n,
{
    if n > 0 {
        lemma_two_pow_pos(n - 1);
    }
}

pub proof fn lemma_two_pow_le(m: int, n: int)
    requires
        m <= n,
    ensures
        two_pow(m) <= two_pow(n),
    decreases n - m,
{
    if m < n {
        lemma_two_pow_le(m, n - 1);
        lemma_two_pow_pos(n - 1);
    }
}

/// The value of `n` bits that spell out `low_bits(v, n)` is `v` itself.
pub proof fn lemma_bits_val_low_bits(s: Seq<bool>, pos: int, v: u8, n: int)
    requires
        0 <= n <= 8,
        v < two_pow(n),
        0 <= pos,
        pos + n <= s.len(),
        s.subrange(pos, pos + n) == low_bits(v, n),
    ensures
        bits_val(s, pos, n) == v,
    decreases n,
{
    if n == 0 {
        reveal_with_fuel(two_pow, 1);
    } else {
        let h: u8 = v >> 1;
        assert(v >> 1 == v / 2 && (v & 1) == v % 2) by (bit_vector);
        assert(forall|k: u8| k < 8 ==> (v >> 1) >> k == v >> (k + 1)) by (bit_vector);
        assert(s.subrange(pos, pos + (n - 1)) == low_bits(h, n - 1)) by {
            assert forall|i: int| 0 <= i < n - 1 implies #[trigger] s.subrange(pos, pos + (n - 1))[i]
                == low_bits(h, n - 1)[i] by {
                assert(s.subrange(pos, pos + n)[i] == low_bits(v, n)[i]);
                assert((v >> 1) >> ((n - 2 - i) as u8) == v >> (((n - 2 - i) as u8) + 1));
            }
            assert(s.subrange(pos, pos + (n - 1)) =~= low_bits(h, n - 1));
        }
        assert(2 * two_pow(n - 1) == two_pow(n));
        lemma_bits_val_low_bits(s, pos, h, n - 1);
        assert(s[pos + n - 1] == low_bits(v, n)[n - 1]);
        assert((v >> 0u8) & 1 == v % 2) by (bit_vector);
        assert(bits_val(s, pos, n) == 2 * (v / 2) + (if v % 2 == 1 {
            1int
        } else {
            0int
        }));
    }
}

/// `byte_bits` is `low_bits` at width eight.
pub proof fn lemma_byte_bits_low_bits(v: u8)
    ensures
        byte_bits(v) == low_bits(v, 8),
{
    assert(byte_bits(v) =~= low_bits(v, 8));
}

/// Reading back eight bits that spell out a byte yields that byte.
pub proof fn lemma_bits_byte_of_byte_bits(s: Seq<bool>, pos: int, v: u8)
    requires
        0 <= pos,
        pos + 8 <= s.len(),
        s.subrange(pos, pos + 8) == byte_bits(v),
    ensures
        bits_byte(s, pos) == v,
{
    lemma_byte_bits_low_bits(v);
    lemma_two_pow_8();
    lemma_bits_val_low_bits(s, pos, v, 8);
}

/// Reading back thirty-two bits that spell out a `u32` yields that `u32`.
pub proof fn lemma_bits_u32_of_u32_le_bits(s: Seq<bool>, pos: int, v: u32)
    requires
        0 <= pos,
        pos + 32 <= s.len(),
        s.subrange(pos, pos + 32) == u32_le_bits(v),
    ensures
        bits_u32(s, pos) == v,
{
    assert forall|j: int| pos <= j < pos + 32 implies #[trigger] s[j] == u32_le_bits(v)[j - pos] by {
        assert(s.subrange(pos, pos + 32)[j - pos] == u32_le_bits(v)[j - pos]);
    }
    assert(s.subrange(pos, pos + 8) =~= byte_bits((v & 0xff) as u8));
    assert(s.subrange(pos + 8, pos + 16) =~= byte_bits(((v >> 8) & 0xff) as u8));
    assert(s.subrange(pos + 16, pos + 24) =~= byte_bits(((v >> 16) & 0xff) as u8));
    assert(s.subrange(pos + 24, pos + 32) =~= byte_bits(((v >> 24) & 0xff) as u8));
    lemma_bits_byte_of_byte_bits(s, pos, (v & 0xff) as u8);
    lemma_bits_byte_of_byte_bits(s, pos + 8, ((v >> 8) & 0xff) as u8);
    lemma_bits_byte_of_byte_bits(s, pos + 16, ((v >> 16) & 0xff) as u8);
    lemma_bits_byte_of_byte_bits(s, pos + 24, ((v >> 24) & 0xff) as u8);
    assert(((v & 0xff) as u8 as u32) | ((((v >> 8) & 0xff) as u8 as u32) << 8) | ((((v >> 16)
        & 0xff) as u8 as u32) << 16) | ((((v >> 24) & 0xff) as u8 as u32) << 24) == v)
        by (bit_vector);
}

/// Appending one byte to a buffer appends its eight bits to the stream.
pub proof fn lemma_bytes_bits_push(s: Seq<u8>, b: u8)
    ensures
        bytes_bits(s.push(b)) == bytes_bits(s) + byte_bits(b),
{
    let lhs = bytes_bits(s.push(b));
    let rhs = bytes_bits(s) + byte_bits(b);
    assert forall|i: int| 0 <= i < lhs.len() implies lhs[i] == rhs[i] by {
        if i < 8 * s.len() {
            assert(i / 8 < s.len()) by (nonlinear_arith)
                requires
                    0 <= i < 8 * s.len(),
            ;
            assert(s.push(b)[i / 8] == s[i / 8]);
        } else {
            assert(i / 8 == s.len() && i % 8 == i - 8 * s.len()) by (nonlinear_arith)
                requires
                    8 * s.len() <= i < 8 * s.len() + 8,
            ;
        }
    }
    assert(lhs =~= rhs);
}

/// An accumulating writer for bit-packed data.
///
/// Bits are collected one by one; `finish` packs them into bytes,
/// zero-padding the final partial byte.
pub struct BitWriter {
    bits: Vec<bool>,
}

impl View for BitWriter {
    type V = Seq<bool>;

    closed spec fn view(&self) -> Seq<bool> {
        self.bits@
    }
}

impl BitWriter {
    pub fn new() -> (w: BitWriter)
        ensures
            w@ == Seq::<bool>::empty(),
    {
        let w = BitWriter { bits: Vec::new() };
        proof {
            assert(w@ =~= Seq::<bool>::empty());
        }
        w
    }

    /// The number of bits written so far.
    pub fn bit_len(&self) -> (r: usize)
        ensures
            r == self@.len(),
    {
        self.bits.len()
    }

    pub fn write_bit(&mut self, b: bool)
        ensures
            final(self)@ == old(self)@.push(b),
    {
        self.bits.push(b);
    }

    /// Writes the low `n` bits of `v`, most-significant first.
    pub fn write_bits(&mut self, v: u8, n: usize)
        requires
            n <= 8,
        ensures
            final(self)@ == old(self)@ + low_bits(v, n as int),
    {
        let ghost start = self@;
        let mut i: usize = 0;
        while i < n
            invariant
                i <= n <= 8,
                self@ == start + low_bits(v, n as int).take(i as int),
            decreases n - i,
        {
            let sh: u8 = (n - 1 - i) as u8;
            self.bits.push((v >> sh) & 1 == 1);
            proof {
                assert(start + low_bits(v, n as int).take(i as int + 1) =~= (start + low_bits(
                    v,
                    n as int,
                ).take(i as int)).push((v >> ((n - 1 - i) as u8)) & 1 == 1));
            }
            i = i + 1;
        }
        proof {
            assert(low_bits(v, n as int).take(n as int) =~= low_bits(v, n as int));
        }
    }

    /// Writes one byte, most-significant bit first.
    pub fn write_u8(&mut self, v: u8)
        ensures
            final(self)@ == old(self)@ + byte_bits(v),
    {
        proof {
            lemma_byte_bits_low_bits(v);
        }
        self.write_bits(v, 8);
    }

    /// Writes a `u16`, low byte first.
    pub fn write_u16(&mut self, v: u16)
        ensures
            final(self)@ == old(self)@ + u16_le_bits(v),
    {
        let ghost start = self@;
        self.write_u8((v & 0xff) as u8);
        self.write_u8(((v >> 8) & 0xff) as u8);
        proof {
            assert(self@ =~= start + u16_le_bits(v));
        }
    }

    /// Writes a `u32`, low byte first.
    pub fn write_u32(&mut self, v: u32)
        ensures
            final(self)@ == old(self)@ + u32_le_bits(v),
    {
        let ghost start = self@;
        self.write_u8((v & 0xff) as u8);
        self.write_u8(((v >> 8) & 0xff) as u8);
        self.write_u8(((v >> 16) & 0xff) as u8);
        self.write_u8(((v >> 24) & 0xff) as u8);
        proof {
            assert(self@ =~= start + u32_le_bits(v));
        }
    }

    /// Writes a run of bytes.
    pub fn write_bytes(&mut self, data: &[u8])
        ensures
            final(self)@ == old(self)@ + bytes_bits(data@),
    {
        let ghost start = self@;
        let mut i: usize = 0;
        while i < data.len()
            invariant
                i <= data@.len(),
                self@ == start + bytes_bits(data@.take(i as int)),
            decreases data@.len() - i,
        {
            self.write_u8(data[i]);
            proof {
                lemma_bytes_bits_push(data@.take(i as int), data@[i as int]);
                assert(data@.take(i as int).push(data@[i as int]) =~= data@.take(i as int + 1));
                assert(self@ =~= start + bytes_bits(data@.take(i as int + 1)));
            }
            i = i + 1;
        }
        proof {
            assert(data@.take(data@.len() as int) =~= data@);
        }
    }

    /// Pads with zero bits to the next byte boundary.
    pub fn align(&mut self)
        ensures
            final(self)@ == pad_to_byte(old(self)@),
    {
        let ghost start = self@;
        let r = self.bits.len() % 8;
        if r != 0 {
            let mut i: usize = 0;
            let n = 8 - r;
            while i < n
                invariant
                    n == pad_len(start.len() as int),
                    i <= n,
                    self@ == start + Seq::new(i as nat, |j: int| false),
                decreases n - i,
            {
                self.bits.push(false);
                proof {
                    assert(self@ =~= start + Seq::new(i as nat + 1, |j: int| false));
                }
                i = i + 1;
            }
        }
        proof {
            assert(self@ =~= pad_to_byte(start));
        }
    }

    /// Packs the bits into bytes, zero-padding the last partial byte.
    pub fn finish(self) -> (r: Vec<u8>)
        ensures
            bytes_bits(r@) == pad_to_byte(self@),
    {
        let mut w = self;
        w.align();
        let ghost all = w@;
        let total = w.bits.len();
        let mut out: Vec<u8> = Vec::new();
        let mut k: usize = 0;
        proof {
            assert(bytes_bits(out@) =~= all.take(8 * k as int));
        }
        while k * 8 < total
            invariant
                w@ == all,
                all.len() == total,
                total % 8 == 0,
                k * 8 <= total,
                out@.len() == k,
                bytes_bits(out@) == all.take(8 * k as int),
            decreases total - k * 8,
        {
            proof {
                assert(k * 8 + 8 <= total) by (nonlinear_arith)
                    requires
                        k * 8 < total,
                        total % 8 == 0,
                ;
            }
            let b = byte_from_bits(
                w.bits[k * 8],
                w.bits[k * 8 + 1],
                w.bits[k * 8 + 2],
                w.bits[k * 8 + 3],
                w.bits[k * 8 + 4],
                w.bits[k * 8 + 5],
                w.bits[k * 8 + 6],
                w.bits[k * 8 + 7],
            );
            out.push(b);
            proof {
                lemma_bytes_bits_push(out@.drop_last(), b);
                assert(out@.drop_last().push(b) =~= out@);
                assert(bytes_bits(out@) =~= all.take(8 * (k + 1) as int));
            }
            k = k + 1;
        }
        proof {
            assert(k * 8 >= total && k * 8 <= total);
            assert(all.take(8 * k as int) =~= all);
        }
        out
    }
}

/// Packs eight bits, most-significant first, into a byte.
fn byte_from_bits(b0: bool, b1: bool, b2: bool, b3: bool, b4: bool, b5: bool, b6: bool, b7: bool)
    -> (r: u8)
    ensures
        byte_bits(r) == seq![b0, b1, b2, b3, b4, b5, b6, b7],
{
    let v0: u8 = if b0 { 1 } else { 0 };
    let v1: u8 = if b1 { 1 } else { 0 };
    let v2: u8 = if b2 { 1 } else { 0 };
    let v3: u8 = if b3 { 1 } else { 0 };
    let v4: u8 = if b4 { 1 } else { 0 };
    let v5: u8 = if b5 { 1 } else { 0 };
    let v6: u8 = if b6 { 1 } else { 0 };
    let v7: u8 = if b7 { 1 } else { 0 };
    let r = (v0 << 7) | (v1 << 6) | (v2 << 5) | (v3 << 4) | (v4 << 3) | (v5 << 2) | (v6 << 1) | v7;
    proof {
        let v = r;
        assert(v0 <= 1 && v1 <= 1 && v2 <= 1 && v3 <= 1 && v4 <= 1 && v5 <= 1 && v6 <= 1 && v7
            <= 1);
        assert((((v0 << 7) | (v1 << 6) | (v2 << 5) | (v3 << 4) | (v4 << 3) | (v5 << 2) | (v6 << 1)
            | v7) >> 7u8) & 1 == v0 && (((v0 << 7) | (v1 << 6) | (v2 << 5) | (v3 << 4) | (v4 << 3)
            | (v5 << 2) | (v6 << 1) | v7) >> 6u8) & 1 == v1 && (((v0 << 7) | (v1 << 6) | (v2 << 5)
            | (v3 << 4) | (v4 << 3) | (v5 << 2) | (v6 << 1) | v7) >> 5u8) & 1 == v2 && (((v0 << 7)
            | (v1 << 6) | (v2 << 5) | (v3 << 4) | (v4 << 3) | (v5 << 2) | (v6 << 1) | v7) >> 4u8)
            & 1 == v3 && (((v0 << 7) | (v1 << 6) | (v2 << 5) | (v3 << 4) | (v4 << 3) | (v5 << 2) | (
        v6 << 1) | v7) >> 3u8) & 1 == v4 && (((v0 << 7) | (v1 << 6) | (v2 << 5) | (v3 << 4) | (v4
            << 3) | (v5 << 2) | (v6 << 1) | v7) >> 2u8) & 1 == v5 && (((v0 << 7) | (v1 << 6) | (v2
            << 5) | (v3 << 4) | (v4 << 3) | (v5 << 2) | (v6 << 1) | v7) >> 1u8) & 1 == v6 && (((v0
            << 7) | (v1 << 6) | (v2 << 5) | (v3 << 4) | (v4 << 3) | (v5 << 2) | (v6 << 1) | v7)
            >> 0u8) & 1 == v7) by (bit_vector)
            requires
                v0 <= 1 && v1 <= 1 && v2 <= 1 && v3 <= 1 && v4 <= 1 && v5 <= 1 && v6 <= 1 && v7
                    <= 1,
        ;
        assert(byte_bits(r) =~= seq![b0, b1, b2, b3, b4, b5, b6, b7]);
    }
    r
}

/// A cursor that reads a byte buffer bit by bit.
///
/// Every read returns `None` once the buffer is exhausted; the cursor is
/// never advanced past the end.
pub struct BitReader<'a> {
    pub data: &'a [u8],
    pub pos: usize,
}

impl<'a> BitReader<'a> {
    /// The bit stream carried by the underlying buffer.
    pub open spec fn bits(&self) -> Seq<bool> {
        bytes_bits(self.data@)
    }

    /// The cursor is in range and the buffer small enough that bit
    /// positions fit in a `usize`.
    pub open spec fn wf(&self) -> bool {
        8 * self.data@.len() + 64 <= usize::MAX && self.pos <= 8 * self.data@.len()
    }

    pub fn new(data: &'a [u8]) -> (r: BitReader<'a>)
        requires
            8 * data@.len() + 64 <= usize::MAX,
        ensures
            r.wf(),
            r.data@ == data@,
            r.pos == 0,
    {
        BitReader { data, pos: 0 }
    }

    /// Reads a single bit.
    pub fn read_bit(&mut self) -> (r: Option<bool>)
        requires
            old(self).wf(),
        ensures
            final(self).wf(),
            final(self).data@ == old(self).data@,
            old(self).pos + 1 <= old(self).bits().len() ==> r == Some(
                old(self).bits()[old(self).pos as int],
            ) && final(self).pos == old(self).pos + 1,
            old(self).pos + 1 > old(self).bits().len() ==> r == None::<bool> && final(self).pos
                == old(self).pos,
    {
        if self.pos / 8 < self.data.len() {
            proof {
                assert(self.pos < 8 * self.data@.len()) by (nonlinear_arith)
                    requires
                        self.pos / 8 < self.data@.len(),
            ;
            }
            let sh: u8 = (7 - (self.pos % 8)) as u8;
            let b = (self.data[self.pos / 8] >> sh) & 1 == 1;
            self.pos = self.pos + 1;
            Some(b)
        } else {
            proof {
                assert(self.pos >= 8 * self.data@.len()) by (nonlinear_arith)
                    requires
                        self.pos / 8 >= self.data@.len(),
                        self.pos >= 0,
            ;
            }
            None
        }
    }

    /// Reads `n` bits, most-significant first, into the low bits of a byte.
    pub fn read_bits(&mut self, n: usize) -> (r: Option<u8>)
        requires
            old(self).wf(),
            n <= 8,
        ensures
            final(self).wf(),
            final(self).data@ == old(self).data@,
            old(self).pos + n <= old(self).bits().len() ==> r == Some(
                bits_val(old(self).bits(), old(self).pos as int, n as int) as u8,
            ) && final(self).pos == old(self).pos + n,
            old(self).pos + n > old(self).bits().len() ==> r == None::<u8> && final(self).pos
                == old(self).pos,
    {
        let total = 8 * self.data.len();
        if self.pos + n > total {
            return None;
        }
        let ghost s = self.bits();
        let ghost p0 = self.pos as int;
        let mut v: u8 = 0;
        let mut i: usize = 0;
        while i < n
            invariant
                self.wf(),
                self.data@ == old(self).data@,
                i <= n <= 8,
                p0 + n <= s.len(),
                s == self.bits(),
                self.pos == p0 + i,
                v == bits_val(s, p0, i as int),
                v < two_pow(i as int),
            decreases n - i,
        {
            proof {
                lemma_two_pow_le(i as int, 7);
                lemma_two_pow_8();
            }
            let b = self.read_bit().unwrap();
            v = 2 * v + (if b {
                1
            } else {
                0
            });
            i = i + 1;
            proof {
                lemma_bits_val_bound(s, p0, i as int);
            }
        }
        Some(v)
    }

    /// Reads one byte, most-significant bit first.
    pub fn read_u8(&mut self) -> (r: Option<u8>)
        requires
            old(self).wf(),
        ensures
            final(self).wf(),
            final(self).data@ == old(self).data@,
            old(self).pos + 8 <= old(self).bits().len() ==> r == Some(
                bits_byte(old(self).bits(), old(self).pos as int),
            ) && final(self).pos == old(self).pos + 8,
            old(self).pos + 8 > old(self).bits().len() ==> r == None::<u8> && final(self).pos
                == old(self).pos,
    {
        self.read_bits(8)
    }

    /// Reads a `u16`, low byte first.
    pub fn read_u16(&mut self) -> (r: Option<u16>)
        requires
            old(self).wf(),
        ensures
            final(self).wf(),
            final(self).data@ == old(self).data@,
            old(self).pos + 16 <= old(self).bits().len() ==> r == Some(
                bits_u16(old(self).bits(), old(self).pos as int),
            ) && final(self).pos == old(self).pos + 16,
            old(self).pos + 16 > old(self).bits().len() ==> r == None::<u16> && final(self).pos
                == old(self).pos,
    {
        let total = 8 * self.data.len();
        if self.pos + 16 > total {
            return None;
        }
        let lo = self.read_u8().unwrap();
        let hi = self.read_u8().unwrap();
        Some((lo as u16) | ((hi as u16) << 8))
    }

    /// Reads a `u32`, low byte first.
    pub fn read_u32(&mut self) -> (r: Option<u32>)
        requires
            old(self).wf(),
        ensures
            final(self).wf(),
            final(self).data@ == old(self).data@,
            old(self).pos + 32 <= old(self).bits().len() ==> r == Some(
                bits_u32(old(self).bits(), old(self).pos as int),
            ) && final(self).pos == old(self).pos + 32,
            old(self).pos + 32 > old(self).bits().len() ==> r == None::<u32> && final(self).pos
                == old(self).pos,
    {
        let total = 8 * self.data.len();
        if self.pos + 32 > total {
            return None;
        }
        let b0 = self.read_u8().unwrap();
        let b1 = self.read_u8().unwrap();
        let b2 = self.read_u8().unwrap();
        let b3 = self.read_u8().unwrap();
        Some((b0 as u32) | ((b1 as u32) << 8) | ((b2 as u32) << 16) | ((b3 as u32) << 24))
    }

    /// Skips forward to the next byte boundary.
    pub fn align(&mut self)
        requires
            old(self).wf(),
        ensures
            final(self).wf(),
            final(self).data@ == old(self).data@,
            final(self).pos == old(self).pos + pad_len(old(self).pos as int),
    {
        let r = self.pos % 8;
        if r != 0 {
            proof {
                assert(self.pos + (8 - self.pos % 8) <= 8 * self.data@.len()) by (nonlinear_arith)
                    requires
                        self.pos <= 8 * self.data@.len(),
                        self.pos % 8 != 0,
            ;
            }
            self.pos = self.pos + (8 - r);
        }
    }

    /// Reads `count` bytes; the cursor need not be byte-aligned.
    pub fn read_bytes(&mut self, count: usize) -> (r: Option<Vec<u8>>)
        requires
            old(self).wf(),
        ensures
            final(self).wf(),
            final(self).data@ == old(self).data@,
            old(self).pos + 8 * count <= old(self).bits().len() ==> (r matches Some(v) && v@
                == Seq::new(
                count as nat,
                |i: int| bits_byte(old(self).bits(), old(self).pos + 8 * i),
            ) && final(self).pos == old(self).pos + 8 * count),
            old(self).pos + 8 * count > old(self).bits().len() ==> r == None::<Vec<u8>>
                && final(self).pos == old(self).pos,
    {
        if count > self.data.len() {
            proof {
                assert(8 * self.data@.len() < 8 * count) by (nonlinear_arith)
                    requires
                        self.data@.len() < count,
            ;
            }
            return None;
        }
        let total = 8 * self.data.len();
        proof {
            assert(8 * count <= 8 * self.data@.len()) by (nonlinear_arith)
                requires
                    count <= self.data@.len(),
        ;
        }
        if self.pos > total - 8 * count {
            return None;
        }
        let ghost s = self.bits();
        let ghost p0 = self.pos as int;
        let mut out: Vec<u8> = Vec::new();
        let mut i: usize = 0;
        while i < count
            invariant
                self.wf(),
                self.data@ == old(self).data@,
                i <= count,
                p0 + 8 * count <= s.len(),
                s == self.bits(),
                self.pos == p0 + 8 * i,
                out@ == Seq::new(i as nat, |j: int| bits_byte(s, p0 + 8 * j)),
            decreases count - i,
        {
            let b = self.read_u8().unwrap();
            out.push(b);
            i = i + 1;
            proof {
                assert(out@ =~= Seq::new(i as nat, |j: int| bits_byte(s, p0 + 8 * j)));
            }
        }
        Some(out)
    }
}

} // verus!
