//! The variable-length ("compressed") integer codec.
//!
//! Each byte from the highest down to the second-lowest is encoded as one
//! bit: `1` if the byte is zero, `0` otherwise. On the first `0` bit the
//! remaining low bytes follow in ascending order and the encoding stops. If
//! every high byte was zero, one more bit says whether the high nibble of
//! the low byte is zero: if so, only the low nibble follows in four bits,
//! otherwise the whole low byte follows.

use vstd::prelude::*;

use crate::bitio::{
    bits_byte, bits_u16, bits_u32, bits_val, byte_bits, low_bits, BitReader, BitWriter,
    lemma_bits_byte_of_byte_bits, lemma_bits_val_bound, lemma_bits_val_low_bits, lemma_two_pow_8,
};

verus! {

/// A "compressed" integer: a thin wrapper marking a value that crosses the
/// wire in the variable-length encoding.
pub struct Compressed<T>(pub T);

/// The encoding of a `u16`.
pub open spec fn comp_u16_bits(v: u16) -> Seq<bool> {
    if (v >> 8) & 0xff != 0 {
        seq![false] + byte_bits((v & 0xff) as u8) + byte_bits(((v >> 8) & 0xff) as u8)
    } else if v & 0xf0 == 0 {
        seq![true, true] + low_bits((v & 0x0f) as u8, 4)
    } else {
        seq![true, false] + byte_bits((v & 0xff) as u8)
    }
}

/// The encoding of a `u32`.
pub open spec fn comp_u32_bits(v: u32) -> Seq<bool> {
    if (v >> 24) & 0xff != 0 {
        seq![false] + byte_bits((v & 0xff) as u8) + byte_bits(((v >> 8) & 0xff) as u8) + byte_bits(
            ((v >> 16) & 0xff) as u8,
        ) + byte_bits(((v >> 24) & 0xff) as u8)
    } else if (v >> 16) & 0xff != 0 {
        seq![true, false] + byte_bits((v & 0xff) as u8) + byte_bits(((v >> 8) & 0xff) as u8)
            + byte_bits(((v >> 16) & 0xff) as u8)
    } else if (v >> 8) & 0xff != 0 {
        seq![true, true, false] + byte_bits((v & 0xff) as u8) + byte_bits(((v >> 8) & 0xff) as u8)
    } else if v & 0xf0 == 0 {
        seq![true, true, true, true] + low_bits((v & 0x0f) as u8, 4)
    } else {
        seq![true, true, true, false] + byte_bits((v & 0xff) as u8)
    }
}

/// Decoding a `u16` from the bits at `pos`: the value and the next position.
pub open spec fn parse_comp_u16(s: Seq<bool>, pos: int) -> Option<(u16, int)> {
    if pos < s.len() {
        if !s[pos] {
            if pos + 17 <= s.len() {
                Some((bits_u16(s, pos + 1), pos + 17))
            } else {
                None
            }
        } else if pos + 1 < s.len() {
            if s[pos + 1] {
                if pos + 6 <= s.len() {
                    Some(((bits_val(s, pos + 2, 4)) as u16, pos + 6))
                } else {
                    None
                }
            } else {
                if pos + 10 <= s.len() {
                    Some((bits_byte(s, pos + 2) as u16, pos + 10))
                } else {
                    None
                }
            }
        } else {
            None
        }
    } else {
        None
    }
}

/// Decoding a `u32` from the bits at `pos`: the value and the next position.
pub open spec fn parse_comp_u32(s: Seq<bool>, pos: int) -> Option<(u32, int)> {
    if pos < s.len() {
        if !s[pos] {
            if pos + 33 <= s.len() {
                Some((bits_u32(s, pos + 1), pos + 33))
            } else {
                None
            }
        } else if pos + 1 < s.len() {
            if !s[pos + 1] {
                if pos + 26 <= s.len() {
                    Some(
                        (
                            (bits_byte(s, pos + 2) as u32) | ((bits_byte(s, pos + 10) as u32) << 8)
                                | ((bits_byte(s, pos + 18) as u32) << 16),
                            pos + 26,
                        ),
                    )
                } else {
                    None
                }
            } else if pos + 2 < s.len() {
                if !s[pos + 2] {
                    if pos + 19 <= s.len() {
                        Some(
                            (
                                (bits_byte(s, pos + 3) as u32) | ((bits_byte(
                                    s,
                                    pos + 11,
                                ) as u32) << 8),
                                pos + 19,
                            ),
                        )
                    } else {
                        None
                    }
                } else if pos + 3 < s.len() {
                    if s[pos + 3] {
                        if pos + 8 <= s.len() {
                            Some(((bits_val(s, pos + 4, 4)) as u32, pos + 8))
                        } else {
                            None
                        }
                    } else {
                        if pos + 12 <= s.len() {
                            Some((bits_byte(s, pos + 4) as u32, pos + 12))
                        } else {
                            None
                        }
                    }
                } else {
                    None
                }
            } else {
                None
            }
        } else {
            None
        }
    } else {
        None
    }
}

impl Compressed<u16> {
    /// Appends the encoding of the value to the writer.
    pub fn serialize(&self, w: &mut BitWriter)
        ensures
            final(w)@ == old(w)@ + comp_u16_bits(self.0),
    {
        let ghost start = w@;
        let v = self.0;
        if (v >> 8) & 0xff != 0 {
            w.write_bit(false);
            w.write_u8((v & 0xff) as u8);
            w.write_u8(((v >> 8) & 0xff) as u8);
            proof {
                assert(w@ =~= start + comp_u16_bits(v));
            }
        } else {
            w.write_bit(true);
            if v & 0xf0 == 0 {
                w.write_bit(true);
                w.write_bits((v & 0x0f) as u8, 4);
                proof {
                    assert(w@ =~= start + comp_u16_bits(v));
                }
            } else {
                w.write_bit(false);
                w.write_u8((v & 0xff) as u8);
                proof {
                    assert(w@ =~= start + comp_u16_bits(v));
                }
            }
        }
    }

    /// Reads one encoded value from the reader.
    pub fn deserialize(r: &mut BitReader<'_>) -> (res: Option<Compressed<u16>>)
        requires
            old(r).wf(),
        ensures
            final(r).wf(),
            final(r).data@ == old(r).data@,
            match parse_comp_u16(old(r).bits(), old(r).pos as int) {
                Some((v, np)) => res matches Some(c) && c.0 == v && final(r).pos == np,
                None => res is None,
            },
    {
        match r.read_bit() {
            None => None,
            Some(false) => match r.read_u16() {
                None => None,
                Some(v) => Some(Compressed(v)),
            },
            Some(true) => match r.read_bit() {
                None => None,
                Some(true) => match r.read_bits(4) {
                    None => None,
                    Some(n) => {
                        proof {
                            lemma_bits_val_bound(old(r).bits(), old(r).pos as int + 2, 4);
                            lemma_two_pow_8();
                        }
                        Some(Compressed(n as u16))
                    },
                },
                Some(false) => match r.read_u8() {
                    None => None,
                    Some(b) => Some(Compressed(b as u16)),
                },
            },
        }
    }
}

impl Compressed<u32> {
    /// Appends the encoding of the value to the writer.
    pub fn serialize(&self, w: &mut BitWriter)
        ensures
            final(w)@ == old(w)@ + comp_u32_bits(self.0),
    {
        let ghost start = w@;
        let v = self.0;
        if (v >> 24) & 0xff != 0 {
            w.write_bit(false);
            w.write_u8((v & 0xff) as u8);
            w.write_u8(((v >> 8) & 0xff) as u8);
            w.write_u8(((v >> 16) & 0xff) as u8);
            w.write_u8(((v >> 24) & 0xff) as u8);
            proof {
                assert(w@ =~= start + comp_u32_bits(v));
            }
        } else if (v >> 16) & 0xff != 0 {
            w.write_bit(true);
            w.write_bit(false);
            w.write_u8((v & 0xff) as u8);
            w.write_u8(((v >> 8) & 0xff) as u8);
            w.write_u8(((v >> 16) & 0xff) as u8);
            proof {
                assert(w@ =~= start + comp_u32_bits(v));
            }
        } else if (v >> 8) & 0xff != 0 {
            w.write_bit(true);
            w.write_bit(true);
            w.write_bit(false);
            w.write_u8((v & 0xff) as u8);
            w.write_u8(((v >> 8) & 0xff) as u8);
            proof {
                assert(w@ =~= start + comp_u32_bits(v));
            }
        } else {
            w.write_bit(true);
            w.write_bit(true);
            w.write_bit(true);
            if v & 0xf0 == 0 {
                w.write_bit(true);
                w.write_bits((v & 0x0f) as u8, 4);
                proof {
                    assert(w@ =~= start + comp_u32_bits(v));
                }
            } else {
                w.write_bit(false);
                w.write_u8((v & 0xff) as u8);
                proof {
                    assert(w@ =~= start + comp_u32_bits(v));
                }
            }
        }
    }

    /// Reads one encoded value from the reader.
    pub fn deserialize(r: &mut BitReader<'_>) -> (res: Option<Compressed<u32>>)
        requires
            old(r).wf(),
        ensures
            final(r).wf(),
            final(r).data@ == old(r).data@,
            match parse_comp_u32(old(r).bits(), old(r).pos as int) {
                Some((v, np)) => res matches Some(c) && c.0 == v && final(r).pos == np,
                None => res is None,
            },
    {
        match r.read_bit() {
            None => None,
            Some(false) => match r.read_u32() {
                None => None,
                Some(v) => Some(Compressed(v)),
            },
            Some(true) => match r.read_bit() {
                None => None,
                Some(false) => {
                    let b0 = match r.read_u8() {
                        None => {
                            return None;
                        },
                        Some(b) => b,
                    };
                    let b1 = match r.read_u8() {
                        None => {
                            return None;
                        },
                        Some(b) => b,
                    };
                    let b2 = match r.read_u8() {
                        None => {
                            return None;
                        },
                        Some(b) => b,
                    };
                    Some(Compressed((b0 as u32) | ((b1 as u32) << 8) | ((b2 as u32) << 16)))
                },
                Some(true) => match r.read_bit() {
                    None => None,
                    Some(false) => {
                        let b0 = match r.read_u8() {
                            None => {
                                return None;
                            },
                            Some(b) => b,
                        };
                        let b1 = match r.read_u8() {
                            None => {
                                return None;
                            },
                            Some(b) => b,
                        };
                        Some(Compressed((b0 as u32) | ((b1 as u32) << 8)))
                    },
                    Some(true) => match r.read_bit() {
                        None => None,
                        Some(true) => match r.read_bits(4) {
                            None => None,
                            Some(n) => {
                                proof {
                                    lemma_bits_val_bound(old(r).bits(), old(r).pos as int + 4, 4);
                                    lemma_two_pow_8();
                                }
                                Some(Compressed(n as u32))
                            },
                        },
                        Some(false) => match r.read_u8() {
                            None => None,
                            Some(b) => Some(Compressed(b as u32)),
                        },
                    },
                },
            },
        }
    }
}

/// Decoding an encoded `u16` embedded in a longer stream yields the value
/// back: the codec round-trips for every `u16`.
pub proof fn lemma_comp_u16_round_trip(s: Seq<bool>, pos: int, v: u16)
    requires
        0 <= pos,
        pos + comp_u16_bits(v).len() <= s.len(),
        s.subrange(pos, pos + comp_u16_bits(v).len()) == comp_u16_bits(v),
    ensures
        parse_comp_u16(s, pos) == Some((v, pos + comp_u16_bits(v).len())),
{
    let e = comp_u16_bits(v);
    assert forall|j: int| pos <= j < pos + e.len() implies #[trigger] s[j] == e[j - pos] by {
        assert(s.subrange(pos, pos + e.len())[j - pos] == e[j - pos]);
    }
    lemma_two_pow_8();
    if (v >> 8) & 0xff != 0 {
        assert(s.subrange(pos + 1, pos + 9) =~= byte_bits((v & 0xff) as u8));
        assert(s.subrange(pos + 9, pos + 17) =~= byte_bits(((v >> 8) & 0xff) as u8));
        lemma_bits_byte_of_byte_bits(s, pos + 1, (v & 0xff) as u8);
        lemma_bits_byte_of_byte_bits(s, pos + 9, ((v >> 8) & 0xff) as u8);
        assert(((v & 0xff) as u8 as u16) | ((((v >> 8) & 0xff) as u8 as u16) << 8) == v)
            by (bit_vector);
    } else if v & 0xf0 == 0 {
        let nib: u8 = (v & 0x0f) as u8;
        assert(s.subrange(pos + 2, pos + 6) =~= low_bits(nib, 4));
        assert(((v & 0x0f) as u8) < 16) by (bit_vector);
        lemma_bits_val_low_bits(s, pos + 2, nib, 4);
        assert((v >> 8) & 0xff == 0 && v & 0xf0 == 0 ==> ((v & 0x0f) as u8) as u16 == v)
            by (bit_vector);
    } else {
        assert(s.subrange(pos + 2, pos + 10) =~= byte_bits((v & 0xff) as u8));
        lemma_bits_byte_of_byte_bits(s, pos + 2, (v & 0xff) as u8);
        assert((v >> 8) & 0xff == 0 ==> ((v & 0xff) as u8) as u16 == v) by (bit_vector);
    }
}

/// Decoding an encoded `u32` embedded in a longer stream yields the value
/// back: the codec round-trips for every `u32`.
pub proof fn lemma_comp_u32_round_trip(s: Seq<bool>, pos: int, v: u32)
    requires
        0 <= pos,
        pos + comp_u32_bits(v).len() <= s.len(),
        s.subrange(pos, pos + comp_u32_bits(v).len()) == comp_u32_bits(v),
    ensures
        parse_comp_u32(s, pos) == Some((v, pos + comp_u32_bits(v).len())),
{
    let e = comp_u32_bits(v);
    assert forall|j: int| pos <= j < pos + e.len() implies #[trigger] s[j] == e[j - pos] by {
        assert(s.subrange(pos, pos + e.len())[j - pos] == e[j - pos]);
    }
    lemma_two_pow_8();
    let b0: u8 = (v & 0xff) as u8;
    let b1: u8 = ((v >> 8) & 0xff) as u8;
    let b2: u8 = ((v >> 16) & 0xff) as u8;
    let b3: u8 = ((v >> 24) & 0xff) as u8;
    if (v >> 24) & 0xff != 0 {
        assert(s.subrange(pos + 1, pos + 9) =~= byte_bits(b0));
        assert(s.subrange(pos + 9, pos + 17) =~= byte_bits(b1));
        assert(s.subrange(pos + 17, pos + 25) =~= byte_bits(b2));
        assert(s.subrange(pos + 25, pos + 33) =~= byte_bits(b3));
        lemma_bits_byte_of_byte_bits(s, pos + 1, b0);
        lemma_bits_byte_of_byte_bits(s, pos + 9, b1);
        lemma_bits_byte_of_byte_bits(s, pos + 17, b2);
        lemma_bits_byte_of_byte_bits(s, pos + 25, b3);
        assert(((v & 0xff) as u8 as u32) | ((((v >> 8) & 0xff) as u8 as u32) << 8) | ((((v >> 16)
            & 0xff) as u8 as u32) << 16) | ((((v >> 24) & 0xff) as u8 as u32) << 24) == v)
            by (bit_vector);
    } else if (v >> 16) & 0xff != 0 {
        assert(s.subrange(pos + 2, pos + 10) =~= byte_bits(b0));
        assert(s.subrange(pos + 10, pos + 18) =~= byte_bits(b1));
        assert(s.subrange(pos + 18, pos + 26) =~= byte_bits(b2));
        lemma_bits_byte_of_byte_bits(s, pos + 2, b0);
        lemma_bits_byte_of_byte_bits(s, pos + 10, b1);
        lemma_bits_byte_of_byte_bits(s, pos + 18, b2);
        assert((v >> 24) & 0xff == 0 ==> ((v & 0xff) as u8 as u32) | ((((v >> 8) & 0xff) as u8
            as u32) << 8) | ((((v >> 16) & 0xff) as u8 as u32) << 16) == v) by (bit_vector);
    } else if (v >> 8) & 0xff != 0 {
        assert(s.subrange(pos + 3, pos + 11) =~= byte_bits(b0));
        assert(s.subrange(pos + 11, pos + 19) =~= byte_bits(b1));
        lemma_bits_byte_of_byte_bits(s, pos + 3, b0);
        lemma_bits_byte_of_byte_bits(s, pos + 11, b1);
        assert((v >> 24) & 0xff == 0 && (v >> 16) & 0xff == 0 ==> ((v & 0xff) as u8 as u32) | ((((v
            >> 8) & 0xff) as u8 as u32) << 8) == v) by (bit_vector);
    } else if v & 0xf0 == 0 {
        let nib: u8 = (v & 0x0f) as u8;
        assert(s.subrange(pos + 4, pos + 8) =~= low_bits(nib, 4));
        assert(((v & 0x0f) as u8) < 16) by (bit_vector);
        lemma_bits_val_low_bits(s, pos + 4, nib, 4);
        assert((v >> 24) & 0xff == 0 && (v >> 16) & 0xff == 0 && (v >> 8) & 0xff == 0 && v & 0xf0
            == 0 ==> ((v & 0x0f) as u8) as u32 == v) by (bit_vector);
    } else {
        assert(s.subrange(pos + 4, pos + 12) =~= byte_bits(b0));
        lemma_bits_byte_of_byte_bits(s, pos + 4, b0);
        assert((v >> 24) & 0xff == 0 && (v >> 16) & 0xff == 0 && (v >> 8) & 0xff == 0 ==> ((v
            & 0xff) as u8) as u32 == v) by (bit_vector);
    }
}

} // verus!
