//! Delta-of-delta timestamp compression: regular-interval data has a second
//! difference of zero, which encodes as a single bit. Larger differences go
//! into the smallest of four variable-width buckets.

use vstd::prelude::*;
use vstd::arithmetic::power2::pow2;
use vstd::arithmetic::div_mod::{lemma_small_mod, lemma_mod_multiples_vanish, lemma_add_mod_noop};
use crate::bitstream::{
    BitWriter, BitReader, bits_of_uint, uint_of_bits, lemma_uint_of_bits_of_uint,
    lemma_uint_of_bits_bound,
};

verus! {

/// The value in `i64` range congruent to `x` modulo 2^64.
pub open spec fn wrap_i64(x: int) -> i64 {
    (((x + 0x8000_0000_0000_0000) % 0x1_0000_0000_0000_0000) - 0x8000_0000_0000_0000) as i64
}

/// The value in `u64` range congruent to `x` modulo 2^64.
pub open spec fn wrap_u64(x: int) -> u64 {
    (x % 0x1_0000_0000_0000_0000) as u64
}

pub proof fn lemma_wrap_i64_range(x: int)
    requires
        -0x1_0000_0000_0000_0000 <= x < 0x1_0000_0000_0000_0000,
    ensures
        i64::MIN <= x <= i64::MAX ==> wrap_i64(x) == x,
        x > i64::MAX ==> wrap_i64(x) == x - 0x1_0000_0000_0000_0000,
        x < i64::MIN ==> wrap_i64(x) == x + 0x1_0000_0000_0000_0000,
{
    let m: int = 0x1_0000_0000_0000_0000;
    let h: int = 0x8000_0000_0000_0000;
    if i64::MIN <= x <= i64::MAX {
        lemma_small_mod((x + h) as nat, m as nat);
    } else if x > i64::MAX {
        lemma_mod_multiples_vanish(-1, x + h, m);
        lemma_small_mod((x + h - m) as nat, m as nat);
    } else {
        lemma_mod_multiples_vanish(1, x + h, m);
        lemma_small_mod((x + h + m) as nat, m as nat);
    }
}

pub proof fn lemma_wrap_u64_range(x: int)
    requires
        -0x1_0000_0000_0000_0000 <= x < 0x2_0000_0000_0000_0000,
    ensures
        0 <= x <= u64::MAX ==> wrap_u64(x) == x,
        x > u64::MAX ==> wrap_u64(x) == x - 0x1_0000_0000_0000_0000,
        x < 0 ==> wrap_u64(x) == x + 0x1_0000_0000_0000_0000,
{
    let m: int = 0x1_0000_0000_0000_0000;
    if 0 <= x < m {
        lemma_small_mod(x as nat, m as nat);
    } else if x >= m {
        lemma_mod_multiples_vanish(-1, x, m);
        lemma_small_mod((x - m) as nat, m as nat);
    } else {
        lemma_mod_multiples_vanish(1, x, m);
        lemma_small_mod((x + m) as nat, m as nat);
    }
}

/// Wrapping a value that is already wrapped modulo 2^64 changes nothing.
pub proof fn lemma_wrap_i64_of_wrap_u64(x: int)
    ensures
        wrap_i64(wrap_u64(x) as int) == wrap_i64(x),
{
    let m: int = 0x1_0000_0000_0000_0000;
    let h: int = 0x8000_0000_0000_0000;
    assert((x % m + h) % m == (x + h) % m) by {
        lemma_add_mod_noop(x, h, m);
        lemma_small_mod(h as nat, m as nat);
        lemma_add_mod_noop(x % m, h, m);
        vstd::arithmetic::div_mod::lemma_mod_twice(x, m);
    }
}

/// Both wrap functions only see their argument modulo 2^64.
pub proof fn lemma_wrap_mod(x: int)
    ensures
        (wrap_u64(x) as int) % 0x1_0000_0000_0000_0000 == x % 0x1_0000_0000_0000_0000,
        (wrap_i64(x) as int) % 0x1_0000_0000_0000_0000 == x % 0x1_0000_0000_0000_0000,
{
    let m: int = 0x1_0000_0000_0000_0000;
    let h: int = 0x8000_0000_0000_0000;
    vstd::arithmetic::div_mod::lemma_mod_twice(x, m);
    let y = (x + h) % m;
    assert(0 <= y < m);
    lemma_small_mod(y as nat, m as nat);
    assert((y + (-h)) % m == (y % m + (-h) % m) % m) by {
        lemma_add_mod_noop(y, -h, m);
    }
    assert(((x + h) + (-h)) % m == ((x + h) % m + (-h) % m) % m) by {
        lemma_add_mod_noop(x + h, -h, m);
    }
}

/// Adding an already-wrapped term is the same as adding the raw term.
pub proof fn lemma_wrap_plus(a: int, b: int)
    ensures
        wrap_u64(a + wrap_u64(b)) == wrap_u64(a + b),
        wrap_u64(a + wrap_i64(b)) == wrap_u64(a + b),
        wrap_i64(a + wrap_i64(b)) == wrap_i64(a + b),
        wrap_i64(a + wrap_u64(b)) == wrap_i64(a + b),
{
    let m: int = 0x1_0000_0000_0000_0000;
    let h: int = 0x8000_0000_0000_0000;
    lemma_wrap_mod(b);
    lemma_add_mod_noop(a, wrap_u64(b) as int, m);
    lemma_add_mod_noop(a, wrap_i64(b) as int, m);
    lemma_add_mod_noop(a, b, m);
    lemma_add_mod_noop(a + wrap_u64(b), h, m);
    lemma_add_mod_noop(a + wrap_i64(b), h, m);
    lemma_add_mod_noop(a + b, h, m);
    lemma_small_mod(h as nat, m as nat);
    vstd::arithmetic::div_mod::lemma_mod_twice((a + wrap_u64(b)) as int, m);
    vstd::arithmetic::div_mod::lemma_mod_twice((a + wrap_i64(b)) as int, m);
    vstd::arithmetic::div_mod::lemma_mod_twice(a + b, m);
}

/// The delta the compressor state carries after encoding `ts` against
/// `prev_ts`.
pub open spec fn ts_delta(prev_ts: u64, ts: u64) -> i64 {
    wrap_i64(ts - prev_ts)
}

/// The delta-of-delta a compressor in state `(prev_ts, prev_delta)` encodes
/// for `ts`.
pub open spec fn ts_dod(prev_ts: u64, prev_delta: i64, ts: u64) -> i64 {
    wrap_i64(ts_delta(prev_ts, ts) - prev_delta)
}

/// The exact bit sequence a delta-of-delta encodes to: a unary-terminated
/// prefix choosing the smallest bucket, then a biased payload.
pub open spec fn dod_enc(d: i64) -> Seq<bool> {
    if d == 0 {
        seq![false]
    } else if -63 <= d <= 64 {
        seq![true, false] + bits_of_uint((d + 63) as u64, 7)
    } else if -255 <= d <= 256 {
        seq![true, true, false] + bits_of_uint((d + 255) as u64, 9)
    } else if -2047 <= d <= 2048 {
        seq![true, true, true, false] + bits_of_uint((d + 2047) as u64, 12)
    } else {
        seq![true, true, true, true] + bits_of_uint(wrap_u64(d as int), 32)
    }
}

/// What a decoder reads from the front of `s`: the delta-of-delta and how many
/// bits it consumed. The 32-bit bucket is sign-extended from its low 32 bits.
pub open spec fn dod_dec(s: Seq<bool>) -> Option<(i64, int)> {
    if s.len() < 1 {
        None
    } else if !s[0] {
        Some((0i64, 1int))
    } else if s.len() < 2 {
        None
    } else if !s[1] {
        if s.len() >= 9 {
            Some(((uint_of_bits(s.subrange(2, 9)) - 63) as i64, 9int))
        } else {
            None
        }
    } else if s.len() < 3 {
        None
    } else if !s[2] {
        if s.len() >= 12 {
            Some(((uint_of_bits(s.subrange(3, 12)) - 255) as i64, 12int))
        } else {
            None
        }
    } else if s.len() < 4 {
        None
    } else if !s[3] {
        if s.len() >= 16 {
            Some(((uint_of_bits(s.subrange(4, 16)) - 2047) as i64, 16int))
        } else {
            None
        }
    } else {
        if s.len() >= 36 {
            let v = uint_of_bits(s.subrange(4, 36));
            if v >= 0x8000_0000 {
                Some(((v - 0x1_0000_0000) as i64, 36int))
            } else {
                Some((v as i64, 36int))
            }
        } else {
            None
        }
    }
}

/// A successful decode consumes between 1 and `s.len()` bits.
pub proof fn lemma_dod_dec_len(s: Seq<bool>)
    ensures
        dod_dec(s) matches Some((d, c)) ==> 1 <= c <= s.len(),
{
}

/// How many bits encoding a delta-of-delta costs, without writing it.
pub fn compress_timestamp(delta_of_delta: i64) -> (r: usize)
    ensures
        r == dod_enc(delta_of_delta).len(),
{
    if delta_of_delta == 0 {
        1
    } else if delta_of_delta >= -63 && delta_of_delta <= 64 {
        9
    } else if delta_of_delta >= -255 && delta_of_delta <= 256 {
        12
    } else if delta_of_delta >= -2047 && delta_of_delta <= 2048 {
        16
    } else {
        36
    }
}

/// Append the encoding of a delta-of-delta to `writer`.
pub fn encode_timestamp_delta(writer: &mut BitWriter, delta_of_delta: i64)
    requires
        old(writer).wf(),
    ensures
        final(writer).wf(),
        final(writer).bits() == old(writer).bits() + dod_enc(delta_of_delta),
{
    let ghost start = writer.bits();
    let d = delta_of_delta;
    if d == 0 {
        writer.write_bit(false);
        proof {
            assert(start.push(false) =~= start + dod_enc(d));
        }
    } else if d >= -63 && d <= 64 {
        writer.write_bit(true);
        writer.write_bit(false);
        writer.write_bits((d + 63) as u64, 7);
        proof {
            assert(start.push(true).push(false) + bits_of_uint((d + 63) as u64, 7) =~= start
                + dod_enc(d));
        }
    } else if d >= -255 && d <= 256 {
        writer.write_bit(true);
        writer.write_bit(true);
        writer.write_bit(false);
        writer.write_bits((d + 255) as u64, 9);
        proof {
            assert(start.push(true).push(true).push(false) + bits_of_uint((d + 255) as u64, 9)
                =~= start + dod_enc(d));
        }
    } else if d >= -2047 && d <= 2048 {
        writer.write_bit(true);
        writer.write_bit(true);
        writer.write_bit(true);
        writer.write_bit(false);
        writer.write_bits((d + 2047) as u64, 12);
        proof {
            assert(start.push(true).push(true).push(true).push(false) + bits_of_uint(
                (d + 2047) as u64,
                12,
            ) =~= start + dod_enc(d));
        }
    } else {
        writer.write_bit(true);
        writer.write_bit(true);
        writer.write_bit(true);
        writer.write_bit(true);
        let wrapped: u64 = if d >= 0 {
            d as u64
        } else {
            u64::MAX - ((-(d + 1)) as u64)
        };
        proof {
            lemma_wrap_u64_range(d as int);
        }
        writer.write_bits(wrapped, 32);
        proof {
            assert(start.push(true).push(true).push(true).push(true) + bits_of_uint(
                wrap_u64(d as int),
                32,
            ) =~= start + dod_enc(d));
        }
    }
}

/// Streams one series' timestamps through the delta-of-delta encoder,
/// carrying the previous timestamp and delta.
pub struct TimestampCompressor {
    prev_timestamp: u64,
    prev_delta: i64,
}

impl View for TimestampCompressor {
    type V = (u64, i64);

    closed spec fn view(&self) -> (u64, i64) {
        (self.prev_timestamp, self.prev_delta)
    }
}

impl TimestampCompressor {
    pub fn new(first_timestamp: u64) -> (r: TimestampCompressor)
        ensures
            r@ == (first_timestamp, 0i64),
    {
        TimestampCompressor { prev_timestamp: first_timestamp, prev_delta: 0 }
    }

    /// Encode one timestamp and return how many bits it took.
    pub fn add_timestamp(&mut self, writer: &mut BitWriter, timestamp: u64) -> (r: usize)
        requires
            old(writer).wf(),
        ensures
            final(writer).wf(),
            final(writer).bits() == old(writer).bits() + dod_enc(
                ts_dod(old(self)@.0, old(self)@.1, timestamp),
            ),
            final(self)@ == (timestamp, ts_delta(old(self)@.0, timestamp)),
            r == dod_enc(ts_dod(old(self)@.0, old(self)@.1, timestamp)).len(),
    {
        let diff = timestamp.wrapping_sub(self.prev_timestamp);
        let delta = u64_as_i64_wrapped(diff);
        proof {
            lemma_wrap_u64_range(timestamp - self.prev_timestamp);
            lemma_wrap_i64_of_wrap_u64(timestamp - self.prev_timestamp);
        }
        let delta_of_delta = delta.wrapping_sub(self.prev_delta);
        proof {
            lemma_wrap_i64_range(delta - self.prev_delta);
        }
        let bits_before = writer.bit_count();
        encode_timestamp_delta(writer, delta_of_delta);
        let bits_after = writer.bit_count();

        self.prev_timestamp = timestamp;
        self.prev_delta = delta;
        (bits_after - bits_before) as usize
    }
}

/// The signed value congruent to `x` modulo 2^64.
fn u64_as_i64_wrapped(x: u64) -> (r: i64)
    ensures
        r == wrap_i64(x as int),
{
    proof {
        lemma_wrap_i64_range(x as int);
    }
    if x <= 0x7FFF_FFFF_FFFF_FFFF {
        x as i64
    } else {
        -((u64::MAX - x) as i64) - 1
    }
}

/// The unsigned value congruent to `x` modulo 2^64.
fn i64_as_u64_wrapped(x: i64) -> (r: u64)
    ensures
        r == wrap_u64(x as int),
{
    proof {
        lemma_wrap_u64_range(x as int);
    }
    if x >= 0 {
        x as u64
    } else {
        u64::MAX - ((-(x + 1)) as u64)
    }
}

/// Rebuilds a series' timestamps from the bit stream, mirroring
/// `TimestampCompressor` step for step.
pub struct TimestampDecompressor {
    prev_timestamp: u64,
    prev_delta: i64,
}

impl View for TimestampDecompressor {
    type V = (u64, i64);

    closed spec fn view(&self) -> (u64, i64) {
        (self.prev_timestamp, self.prev_delta)
    }
}

impl TimestampDecompressor {
    pub fn new(first_timestamp: u64) -> (r: TimestampDecompressor)
        ensures
            r@ == (first_timestamp, 0i64),
    {
        TimestampDecompressor { prev_timestamp: first_timestamp, prev_delta: 0 }
    }

    /// Decode the next timestamp; `None` exactly where the stream is too
    /// short to hold one more encoded delta-of-delta.
    pub fn next_timestamp(&mut self, reader: &mut BitReader) -> (r: Option<u64>)
        requires
            old(reader).wf(),
        ensures
            final(reader).wf(),
            final(reader).stream() == old(reader).stream(),
            ({
                let suffix = old(reader).stream().skip(old(reader).pos());
                match dod_dec(suffix) {
                    None => r == None::<u64>,
                    Some((d, c)) => {
                        let delta = wrap_i64(old(self)@.1 + d);
                        let ts = wrap_u64(old(self)@.0 + delta);
                        r == Some(ts) && final(self)@ == (ts, delta) && final(reader).pos() == old(
                            reader,
                        ).pos() + c
                    },
                }
            }),
    {
        let ghost s = old(reader).stream();
        let ghost p0 = old(reader).pos();
        let ghost suffix = s.skip(p0);
        proof {
            reader.lemma_pos_bound();
        }
        let b0 = match reader.read_bit() {
            Some(b) => b,
            None => {
                return None;
            },
        };
        let delta_of_delta: i64;
        if !b0 {
            delta_of_delta = 0;
        } else {
            let b1 = match reader.read_bit() {
                Some(b) => b,
                None => {
                    return None;
                },
            };
            if !b1 {
                let v = match reader.read_bits(7) {
                    Some(v) => v,
                    None => {
                        return None;
                    },
                };
                proof {
                    assert(s.subrange(p0 + 2, p0 + 9) =~= suffix.subrange(2, 9));
                    lemma_uint_of_bits_bound(suffix.subrange(2, 9));
                    vstd::arithmetic::power2::lemma2_to64();
                }
                delta_of_delta = (v as i64) - 63;
            } else {
                let b2 = match reader.read_bit() {
                    Some(b) => b,
                    None => {
                        return None;
                    },
                };
                if !b2 {
                    let v = match reader.read_bits(9) {
                        Some(v) => v,
                        None => {
                            return None;
                        },
                    };
                    proof {
                        assert(s.subrange(p0 + 3, p0 + 12) =~= suffix.subrange(3, 12));
                        lemma_uint_of_bits_bound(suffix.subrange(3, 12));
                        vstd::arithmetic::power2::lemma2_to64();
                    }
                    delta_of_delta = (v as i64) - 255;
                } else {
                    let b3 = match reader.read_bit() {
                        Some(b) => b,
                        None => {
                            return None;
                        },
                    };
                    if !b3 {
                        let v = match reader.read_bits(12) {
                            Some(v) => v,
                            None => {
                                return None;
                            },
                        };
                        proof {
                            assert(s.subrange(p0 + 4, p0 + 16) =~= suffix.subrange(4, 16));
                            lemma_uint_of_bits_bound(suffix.subrange(4, 16));
                            vstd::arithmetic::power2::lemma2_to64();
                        }
                        delta_of_delta = (v as i64) - 2047;
                    } else {
                        let v = match reader.read_bits(32) {
                            Some(v) => v,
                            None => {
                                return None;
                            },
                        };
                        proof {
                            assert(s.subrange(p0 + 4, p0 + 36) =~= suffix.subrange(4, 36));
                            lemma_uint_of_bits_bound(suffix.subrange(4, 36));
                            vstd::arithmetic::power2::lemma2_to64();
                        }
                        if v >= 0x8000_0000 {
                            delta_of_delta = (v as i64) - 0x1_0000_0000;
                        } else {
                            delta_of_delta = v as i64;
                        }
                    }
                }
            }
        }
        let delta = self.prev_delta.wrapping_add(delta_of_delta);
        proof {
            lemma_wrap_i64_range(self.prev_delta + delta_of_delta);
        }
        let step = i64_as_u64_wrapped(delta);
        let ts = self.prev_timestamp.wrapping_add(step);
        proof {
            lemma_wrap_u64_range(self.prev_timestamp + step);
            assert((self.prev_timestamp + wrap_u64(delta as int)) % 0x1_0000_0000_0000_0000 == (
            self.prev_timestamp + delta) % 0x1_0000_0000_0000_0000) by {
                lemma_add_mod_noop(
                    self.prev_timestamp as int,
                    delta as int,
                    0x1_0000_0000_0000_0000,
                );
                lemma_add_mod_noop(
                    self.prev_timestamp as int,
                    wrap_u64(delta as int) as int,
                    0x1_0000_0000_0000_0000,
                );
                vstd::arithmetic::div_mod::lemma_mod_twice(
                    delta as int,
                    0x1_0000_0000_0000_0000,
                );
            }
        }
        self.prev_timestamp = ts;
        self.prev_delta = delta;
        Some(ts)
    }
}

/// Round trip: a decoder reading what `dod_enc` produced recovers the same
/// delta-of-delta, provided it fits in 32 bits.
pub proof fn lemma_dod_round_trip(d: i64, rest: Seq<bool>)
    requires
        -0x8000_0000 <= d <= 0x7FFF_FFFF,
    ensures
        dod_dec(dod_enc(d) + rest) == Some((d, dod_enc(d).len() as int)),
{
    let s = dod_enc(d) + rest;
    vstd::arithmetic::power2::lemma2_to64();
    if d == 0 {
    } else if -63 <= d <= 64 {
        assert(s.subrange(2, 9) =~= bits_of_uint((d + 63) as u64, 7));
        lemma_uint_of_bits_of_uint((d + 63) as u64, 7);
        lemma_small_mod((d + 63) as nat, pow2(7));
    } else if -255 <= d <= 256 {
        assert(s.subrange(3, 12) =~= bits_of_uint((d + 255) as u64, 9));
        lemma_uint_of_bits_of_uint((d + 255) as u64, 9);
        lemma_small_mod((d + 255) as nat, pow2(9));
    } else if -2047 <= d <= 2048 {
        assert(s.subrange(4, 16) =~= bits_of_uint((d + 2047) as u64, 12));
        lemma_uint_of_bits_of_uint((d + 2047) as u64, 12);
        lemma_small_mod((d + 2047) as nat, pow2(12));
    } else {
        assert(s.subrange(4, 36) =~= bits_of_uint(wrap_u64(d as int), 32));
        lemma_uint_of_bits_of_uint(wrap_u64(d as int), 32);
        lemma_wrap_u64_range(d as int);
        if d >= 0 {
            lemma_small_mod(d as nat, pow2(32));
        } else {
            let v = wrap_u64(d as int) as int;
            assert(v == d + 0x1_0000_0000_0000_0000);
            assert(v % 0x1_0000_0000 == d + 0x1_0000_0000) by {
                lemma_mod_multiples_vanish(0xFFFF_FFFF, d + 0x1_0000_0000, 0x1_0000_0000);
                lemma_small_mod((d + 0x1_0000_0000) as nat, 0x1_0000_0000);
            }
        }
    }
}

} // verus!
