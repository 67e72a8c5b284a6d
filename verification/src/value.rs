//! XOR-based value compression over raw IEEE-754 bit patterns: similar values
//! share leading and trailing zero runs in their XOR, so only the meaningful
//! window in the middle is stored, and an unchanged value costs a single bit.

use vstd::prelude::*;
use vstd::arithmetic::power2::pow2;
use vstd::arithmetic::div_mod::lemma_small_mod;
use vstd::std_specs::bits::{
    u64_leading_zeros, u64_trailing_zeros, axiom_u64_leading_zeros, axiom_u64_trailing_zeros,
};
use crate::bitstream::{
    BitWriter, BitReader, bits_of_uint, uint_of_bits, lemma_uint_of_bits_of_uint,
    lemma_uint_of_bits_bound,
};

verus! {

/// Left shift that is zero once every bit is shifted out.
pub open spec fn shift_left_64(v: u64, k: int) -> u64 {
    if 0 <= k < 64 {
        v << (k as u64)
    } else {
        0
    }
}

/// The meaningful window of `xor` still fits inside the window recorded in
/// the codec state, so the state's window is reused.
pub open spec fn val_reuse(xor: u64, pl: u32, pt: u32) -> bool {
    u64_leading_zeros(xor) >= pl && u64_trailing_zeros(xor) >= pt
}

/// The exact bit sequence one value XOR encodes to, given the previous
/// leading/trailing window `(pl, pt)`.
pub open spec fn val_enc(xor: u64, pl: u32, pt: u32) -> Seq<bool> {
    if xor == 0 {
        seq![false]
    } else if val_reuse(xor, pl, pt) {
        seq![true, false] + bits_of_uint(xor >> (pt as u64), (64 - pl - pt) as nat)
    } else {
        let l = u64_leading_zeros(xor);
        let t = u64_trailing_zeros(xor);
        seq![true, true] + bits_of_uint(l as u64, 5) + bits_of_uint((64 - l - t) as u64, 6)
            + bits_of_uint(xor >> (t as u64), (64 - l - t) as nat)
    }
}

/// The window state after encoding `xor`: only a new window updates it.
pub open spec fn val_next_state(xor: u64, pl: u32, pt: u32) -> (u32, u32) {
    if xor == 0 || val_reuse(xor, pl, pt) {
        (pl, pt)
    } else {
        (u64_leading_zeros(xor) as u32, u64_trailing_zeros(xor) as u32)
    }
}

/// What a decoder reads from the front of `s` in window state `(pl, pt)`:
/// the XOR, how many bits were consumed, and the next window state.
pub open spec fn val_dec(s: Seq<bool>, pl: u32, pt: u32) -> Option<(u64, int, u32, u32)> {
    if s.len() < 1 {
        None
    } else if !s[0] {
        Some((0u64, 1int, pl, pt))
    } else if s.len() < 2 {
        None
    } else if !s[1] {
        let m = 64 - pl - pt;
        if s.len() >= 2 + m {
            Some(
                (
                    shift_left_64(uint_of_bits(s.subrange(2, 2 + m)) as u64, pt as int),
                    2 + m,
                    pl,
                    pt,
                ),
            )
        } else {
            None
        }
    } else {
        if s.len() < 13 {
            None
        } else {
            let l = uint_of_bits(s.subrange(2, 7)) as int;
            let w = uint_of_bits(s.subrange(7, 13)) as int;
            if l + w > 64 {
                None
            } else if s.len() >= 13 + w {
                let t = 64 - l - w;
                let v = uint_of_bits(s.subrange(13, 13 + w)) as u64;
                Some((shift_left_64(v, t), 13 + w, l as u32, t as u32))
            } else {
                None
            }
        }
    }
}

/// Every XOR whose encoding the decoder inverts exactly: an unchanged value,
/// a reused window, or a new window whose leading count fits the 5-bit field
/// and whose width fits the 6-bit field.
pub open spec fn val_recoverable(xor: u64, pl: u32, pt: u32) -> bool {
    xor == 0 || val_reuse(xor, pl, pt) || (u64_leading_zeros(xor) <= 31 && u64_leading_zeros(xor)
        + u64_trailing_zeros(xor) >= 1)
}

/// A successful decode consumes between 1 and `s.len()` bits.
pub proof fn lemma_val_dec_len(s: Seq<bool>, pl: u32, pt: u32)
    requires
        pl + pt <= 64,
    ensures
        val_dec(s, pl, pt) matches Some((x, c, a, b)) ==> 1 <= c <= s.len(),
{
}

/// A nonzero value has its leading-zero and trailing-zero runs disjoint.
pub proof fn lemma_lead_trail(xor: u64)
    requires
        xor != 0,
    ensures
        0 <= u64_leading_zeros(xor) < 64,
        0 <= u64_trailing_zeros(xor) < 64,
        u64_leading_zeros(xor) + u64_trailing_zeros(xor) <= 63,
{
    axiom_u64_leading_zeros(xor);
    axiom_u64_trailing_zeros(xor);
    let lz = u64_leading_zeros(xor);
    let tz = u64_trailing_zeros(xor) as u64;
    if tz + lz >= 64 {
        assert((xor >> tz) & 1u64 == 1u64);
        assert(64 - lz <= tz < 64);
        assert((xor >> tz) & 1u64 == 0u64);
    }
}

/// Exactness of the window encoding: if the bits of `x` all lie in the window
/// `[pt, pt + m)`, then cutting the window out and shifting it back restores
/// `x`.
proof fn lemma_window_exact(x: u64, pt: u64, m: u64, ka: u64, ca: u64)
    by (bit_vector)
    requires
        pt + m <= 64,
        ka <= pt + m,
        x >> ka == 0,
        ca + pt <= 64,
        x << ca == 0,
    ensures
        m < 64 ==> (x >> pt) < (1u64 << m),
        pt < 64 ==> ((x >> pt) << pt) == x,
        pt == 64 ==> x == 0,
        x >> 0u64 == x,
        x << 0u64 == x,
{
}

/// A quick size estimate for one encoded XOR, in bits. The reuse case is an
/// optimistic guess, not the exact cost.
pub fn compress_value_xor(xor_result: u64) -> (r: usize)
    ensures
        xor_result == 0 ==> r == 1,
        xor_result != 0 && u64_leading_zeros(xor_result) >= 10 && u64_trailing_zeros(xor_result)
            >= 10 ==> r == 14,
        xor_result != 0 && !(u64_leading_zeros(xor_result) >= 10 && u64_trailing_zeros(xor_result)
            >= 10) ==> r == 13 + 64 - u64_leading_zeros(xor_result) - u64_trailing_zeros(
            xor_result,
        ),
{
    if xor_result == 0 {
        1
    } else {
        let leading = xor_result.leading_zeros();
        let trailing = xor_result.trailing_zeros();
        proof {
            lemma_lead_trail(xor_result);
        }
        let meaningful = 64 - leading - trailing;

        if leading >= 10 && trailing >= 10 {
            14
        } else {
            2 + 5 + 6 + meaningful as usize
        }
    }
}

/// Append the encoding of `value_bits` against `prev_value_bits` to `writer`
/// and return how many bits it took. `prev_leading`/`prev_trailing` carry the
/// window state and are updated only when a new window is stored.
pub fn encode_value_xor(
    writer: &mut BitWriter,
    value_bits: u64,
    prev_value_bits: u64,
    prev_leading: &mut u32,
    prev_trailing: &mut u32,
) -> (r: usize)
    requires
        old(writer).wf(),
        *old(prev_leading) + *old(prev_trailing) <= 64,
    ensures
        final(writer).wf(),
        final(writer).bits() == old(writer).bits() + val_enc(
            value_bits ^ prev_value_bits,
            *old(prev_leading),
            *old(prev_trailing),
        ),
        (*final(prev_leading), *final(prev_trailing)) == val_next_state(
            value_bits ^ prev_value_bits,
            *old(prev_leading),
            *old(prev_trailing),
        ),
        *final(prev_leading) + *final(prev_trailing) <= 64,
        r == val_enc(value_bits ^ prev_value_bits, *old(prev_leading), *old(prev_trailing)).len(),
{
    let xor = value_bits ^ prev_value_bits;
    let ghost start = writer.bits();
    let ghost pl = *prev_leading;
    let ghost pt = *prev_trailing;

    let bits_before = writer.bit_count();

    if xor == 0 {
        writer.write_bit(false);
        proof {
            assert(start.push(false) =~= start + val_enc(xor, pl, pt));
        }
    } else {
        writer.write_bit(true);

        let leading = xor.leading_zeros();
        let trailing = xor.trailing_zeros();
        proof {
            lemma_lead_trail(xor);
        }

        if leading >= *prev_leading && trailing >= *prev_trailing {
            writer.write_bit(false);

            let meaningful_bits = 64 - *prev_leading - *prev_trailing;
            let shift = *prev_trailing;
            let meaningful_value = xor >> (shift as u64);

            writer.write_bits(meaningful_value, meaningful_bits as u8);
            proof {
                assert(start.push(true).push(false) + bits_of_uint(
                    xor >> (pt as u64),
                    (64 - pl - pt) as nat,
                ) =~= start + val_enc(xor, pl, pt));
            }
        } else {
            writer.write_bit(true);

            writer.write_bits(leading as u64, 5);

            let meaningful_bits = 64 - leading - trailing;
            writer.write_bits(meaningful_bits as u64, 6);

            let shift = trailing;
            let meaningful_value = xor >> (shift as u64);
            writer.write_bits(meaningful_value, meaningful_bits as u8);

            *prev_leading = leading;
            *prev_trailing = trailing;
            proof {
                let l = u64_leading_zeros(xor);
                let t = u64_trailing_zeros(xor);
                assert(start.push(true).push(true) + bits_of_uint(l as u64, 5) + bits_of_uint(
                    (64 - l - t) as u64,
                    6,
                ) + bits_of_uint(xor >> (t as u64), (64 - l - t) as nat) =~= start + val_enc(
                    xor,
                    pl,
                    pt,
                ));
            }
        }
    }

    let bits_after = writer.bit_count();
    (bits_after - bits_before) as usize
}

/// Streams one series' values through the XOR encoder, carrying the previous
/// value's bit pattern and the current window state.
pub struct ValueCompressor {
    prev_value_bits: u64,
    prev_leading: u32,
    prev_trailing: u32,
}

impl View for ValueCompressor {
    type V = (u64, u32, u32);

    closed spec fn view(&self) -> (u64, u32, u32) {
        (self.prev_value_bits, self.prev_leading, self.prev_trailing)
    }
}

impl ValueCompressor {
    pub fn new(first_value_bits: u64) -> (r: ValueCompressor)
        ensures
            r@ == (first_value_bits, 0u32, 0u32),
    {
        ValueCompressor { prev_value_bits: first_value_bits, prev_leading: 0, prev_trailing: 0 }
    }

    /// Encode one value's bit pattern and return how many bits it took.
    pub fn add_value(&mut self, writer: &mut BitWriter, value_bits: u64) -> (r: usize)
        requires
            old(writer).wf(),
            old(self)@.1 + old(self)@.2 <= 64,
        ensures
            final(writer).wf(),
            final(writer).bits() == old(writer).bits() + val_enc(
                value_bits ^ old(self)@.0,
                old(self)@.1,
                old(self)@.2,
            ),
            final(self)@.0 == value_bits,
            (final(self)@.1, final(self)@.2) == val_next_state(
                value_bits ^ old(self)@.0,
                old(self)@.1,
                old(self)@.2,
            ),
            final(self)@.1 + final(self)@.2 <= 64,
            r == val_enc(value_bits ^ old(self)@.0, old(self)@.1, old(self)@.2).len(),
    {
        let bits = encode_value_xor(
            writer,
            value_bits,
            self.prev_value_bits,
            &mut self.prev_leading,
            &mut self.prev_trailing,
        );
        self.prev_value_bits = value_bits;
        bits
    }
}

/// Rebuilds one series' values from the bit stream, mirroring
/// `ValueCompressor` step for step.
pub struct ValueDecompressor {
    prev_value_bits: u64,
    prev_leading: u32,
    prev_trailing: u32,
}

impl View for ValueDecompressor {
    type V = (u64, u32, u32);

    closed spec fn view(&self) -> (u64, u32, u32) {
        (self.prev_value_bits, self.prev_leading, self.prev_trailing)
    }
}

impl ValueDecompressor {
    pub fn new(first_value_bits: u64) -> (r: ValueDecompressor)
        ensures
            r@ == (first_value_bits, 0u32, 0u32),
    {
        ValueDecompressor { prev_value_bits: first_value_bits, prev_leading: 0, prev_trailing: 0 }
    }

    /// Decode the next value's bit pattern; `None` exactly where the spec
    /// decoder rejects the stream.
    pub fn next_value(&mut self, reader: &mut BitReader) -> (r: Option<u64>)
        requires
            old(reader).wf(),
            old(self)@.1 + old(self)@.2 <= 64,
        ensures
            final(reader).wf(),
            final(reader).stream() == old(reader).stream(),
            final(self)@.1 + final(self)@.2 <= 64,
            ({
                let suffix = old(reader).stream().skip(old(reader).pos());
                match val_dec(suffix, old(self)@.1, old(self)@.2) {
                    None => r == None::<u64>,
                    Some((xor, c, pl2, pt2)) => {
                        let value = old(self)@.0 ^ xor;
                        r == Some(value) && final(self)@ == (value, pl2, pt2) && final(reader).pos()
                            == old(reader).pos() + c
                    },
                }
            }),
    {
        let ghost s = old(reader).stream();
        let ghost p0 = old(reader).pos();
        let ghost suffix = s.skip(p0);
        proof {
            reader.lemma_pos_bound();
        }
        let b0 = match reader.read_bit() {
            Some(b) => b,
            None => {
                return None;
            },
        };
        let xor: u64;
        if !b0 {
            xor = 0;
        } else {
            let b1 = match reader.read_bit() {
                Some(b) => b,
                None => {
                    return None;
                },
            };
            if !b1 {
                let meaningful_bits = 64 - self.prev_leading - self.prev_trailing;
                let v = match reader.read_bits(meaningful_bits as u8) {
                    Some(v) => v,
                    None => {
                        return None;
                    },
                };
                proof {
                    let m = meaningful_bits as int;
                    assert(s.subrange(p0 + 2, p0 + 2 + m) =~= suffix.subrange(2, 2 + m));
                }
                if meaningful_bits == 0 {
                    xor = 0;
                    proof {
                        assert(uint_of_bits(suffix.subrange(2, 2)) == 0);
                        assert(shift_left_64(0u64, self.prev_trailing as int) == 0) by {
                            let k = self.prev_trailing as u64;
                            assert(0u64 << k == 0u64) by (bit_vector);
                        }
                    }
                } else {
                    xor = v << (self.prev_trailing as u64);
                }
            } else {
                let leading = match reader.read_bits(5) {
                    Some(v) => v,
                    None => {
                        return None;
                    },
                };
                let width = match reader.read_bits(6) {
                    Some(v) => v,
                    None => {
                        return None;
                    },
                };
                proof {
                    assert(s.subrange(p0 + 2, p0 + 7) =~= suffix.subrange(2, 7));
                    assert(s.subrange(p0 + 7, p0 + 13) =~= suffix.subrange(7, 13));
                    lemma_uint_of_bits_bound(suffix.subrange(2, 7));
                    lemma_uint_of_bits_bound(suffix.subrange(7, 13));
                    vstd::arithmetic::power2::lemma2_to64();
                }
                if leading + width > 64 {
                    return None;
                }
                let v = match reader.read_bits(width as u8) {
                    Some(v) => v,
                    None => {
                        return None;
                    },
                };
                proof {
                    let w = width as int;
                    assert(s.subrange(p0 + 13, p0 + 13 + w) =~= suffix.subrange(13, 13 + w));
                }
                let shift = 64 - leading - width;
                if shift == 64 {
                    xor = 0;
                    proof {
                        assert(uint_of_bits(suffix.subrange(13, 13)) == 0);
                    }
                } else {
                    xor = v << shift;
                }
                self.prev_leading = leading as u32;
                self.prev_trailing = shift as u32;
            }
        }
        let value = self.prev_value_bits ^ xor;
        self.prev_value_bits = value;
        Some(value)
    }
}

/// Round trip: a decoder in the same window state reading what `val_enc`
/// produced recovers the same XOR and moves to the same state.
pub proof fn lemma_val_round_trip(xor: u64, pl: u32, pt: u32, rest: Seq<bool>)
    requires
        pl + pt <= 64,
        val_recoverable(xor, pl, pt),
    ensures
        ({
            let e = val_enc(xor, pl, pt);
            val_dec(e + rest, pl, pt) == Some(
                (
                    xor,
                    e.len() as int,
                    val_next_state(xor, pl, pt).0,
                    val_next_state(xor, pl, pt).1,
                ),
            )
        }),
{
    let e = val_enc(xor, pl, pt);
    let s = e + rest;
    vstd::arithmetic::power2::lemma2_to64();
    if xor == 0 {
    } else {
        lemma_lead_trail(xor);
        axiom_u64_leading_zeros(xor);
        axiom_u64_trailing_zeros(xor);
        let lz = u64_leading_zeros(xor);
        let tz = u64_trailing_zeros(xor) as int;
        let ka = (64 - lz) as u64;
        let ca = (64 - tz) as u64;
        assert(xor >> ka == 0);
        assert(xor << ca == 0);
        if val_reuse(xor, pl, pt) {
            let m = 64 - pl - pt;
            assert(s.subrange(2, 2 + m) =~= bits_of_uint(xor >> (pt as u64), m as nat));
            lemma_uint_of_bits_of_uint(xor >> (pt as u64), m as nat);
            let v = uint_of_bits(s.subrange(2, 2 + m));
            lemma_window_exact(xor, pt as u64, m as u64, ka, ca);
            if m < 64 {
                vstd::bits::lemma_u64_pow2_no_overflow(m as nat);
                vstd::bits::lemma_u64_shl_is_mul(1u64, m as u64);
                assert((1u64 << (m as u64)) == pow2(m as nat));
                lemma_small_mod((xor >> (pt as u64)) as nat, pow2(m as nat));
                assert(v as u64 == xor >> (pt as u64));
                assert(shift_left_64(v as u64, pt as int) == xor);
            } else {
                assert(m == 64 && pl == 0 && pt == 0);
                vstd::arithmetic::power2::lemma2_to64_rest();
                lemma_small_mod((xor >> 0u64) as nat, pow2(64));
                assert(v as u64 == xor);
                assert(shift_left_64(xor, 0) == xor);
            }
        } else {
            let w = 64 - lz - tz;
            assert(1 <= w <= 63);
            assert(s.subrange(2, 7) =~= bits_of_uint(lz as u64, 5));
            assert(s.subrange(7, 13) =~= bits_of_uint(w as u64, 6));
            assert(s.subrange(13, 13 + w) =~= bits_of_uint(xor >> (tz as u64), w as nat));
            lemma_uint_of_bits_of_uint(lz as u64, 5);
            lemma_small_mod(lz as nat, pow2(5));
            lemma_uint_of_bits_of_uint(w as u64, 6);
            lemma_small_mod(w as nat, pow2(6));
            lemma_uint_of_bits_of_uint(xor >> (tz as u64), w as nat);
            let v = uint_of_bits(s.subrange(13, 13 + w));
            lemma_window_exact(xor, tz as u64, w as u64, ka, ca);
            vstd::bits::lemma_u64_pow2_no_overflow(w as nat);
            vstd::bits::lemma_u64_shl_is_mul(1u64, w as u64);
            assert((1u64 << (w as u64)) == pow2(w as nat));
            lemma_small_mod((xor >> (tz as u64)) as nat, pow2(w as nat));
            assert(v as u64 == xor >> (tz as u64));
            assert(shift_left_64(v as u64, tz) == xor);
        }
    }
}

} // verus!
