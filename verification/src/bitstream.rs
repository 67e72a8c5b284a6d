//! Bit-level writer and reader over a byte buffer, MSB-first within each byte.
//! These are the primitives under the variable-length compression codecs.

use vstd::prelude::*;
use vstd::arithmetic::power2::{pow2, lemma_pow2_strictly_increases, lemma2_to64};
use vstd::arithmetic::div_mod::{lemma_fundamental_div_mod_converse, lemma_mod_multiples_vanish};

verus! {

/// Bit `k` of `b`, counting the least significant bit as bit 0.
pub open spec fn u8_bit(b: u8, k: u8) -> bool {
    ((b >> k) & 1) == 1
}

/// Bit `k` of `v`, counting the least significant bit as bit 0.
pub open spec fn u64_bit(v: u64, k: u64) -> bool {
    ((v >> k) & 1) == 1
}

/// The eight bits of a byte in stream order, most significant first.
pub open spec fn byte_bits(b: u8) -> Seq<bool> {
    Seq::new(8, |i: int| u8_bit(b, (7 - i) as u8))
}

/// All bits of a byte sequence, in stream order.
pub open spec fn bytes_bits(s: Seq<u8>) -> Seq<bool>
    decreases s.len(),
{
    if s.len() == 0 {
        Seq::empty()
    } else {
        bytes_bits(s.drop_last()) + byte_bits(s.last())
    }
}

/// The `n` low bits of `v` in stream order, most significant first.
pub open spec fn bits_of_uint(v: u64, n: nat) -> Seq<bool> {
    Seq::new(n, |i: int| u64_bit(v, (n - 1 - i) as u64))
}

/// The unsigned integer read from a bit sequence, most significant bit first.
pub open spec fn uint_of_bits(s: Seq<bool>) -> nat
    decreases s.len(),
{
    if s.len() == 0 {
        0
    } else {
        uint_of_bits(s.drop_last()) * 2 + (if s.last() {
            1nat
        } else {
            0nat
        })
    }
}

/// `n` zero bits.
pub open spec fn zero_bits(n: nat) -> Seq<bool> {
    Seq::new(n, |i: int| false)
}

/// `s` padded with zero bits up to a whole number of bytes.
pub open spec fn pad_to_bytes(s: Seq<bool>) -> Seq<bool> {
    s + zero_bits(((8 - s.len() % 8) % 8) as nat)
}

proof fn lemma_u8_empty_mask()
    by (bit_vector)
    ensures
        0u8 & (0xFFu8 >> 0u8) == 0,
{
}

/// Pointwise effect of setting the bit at stream position `pos` in a partial
/// byte whose positions at and after `pos` are still zero.
proof fn lemma_u8_write_bit(b: u8, pos: u8, q: u8, pos2: u8, j: u8)
    by (bit_vector)
    requires
        pos < 8,
        q + pos == 7,
        pos2 == pos + 1,
        b & (0xFFu8 >> pos) == 0,
        j < 8,
    ensures
        j + pos < 8 ==> !u8_bit(b, j),
        u8_bit(b | (128u8 >> pos), q),
        j != q ==> u8_bit(b | (128u8 >> pos), j) == u8_bit(b, j),
        pos2 < 8 ==> (b | (128u8 >> pos)) & (0xFFu8 >> pos2) == 0,
        pos2 < 8 ==> b & (0xFFu8 >> pos2) == 0,
{
}

pub proof fn lemma_bytes_bits_len(s: Seq<u8>)
    ensures
        bytes_bits(s).len() == 8 * s.len(),
    decreases s.len(),
{
    if s.len() > 0 {
        lemma_bytes_bits_len(s.drop_last());
    }
}

pub proof fn lemma_bytes_bits_push(s: Seq<u8>, b: u8)
    ensures
        bytes_bits(s.push(b)) == bytes_bits(s) + byte_bits(b),
{
    assert(s.push(b).drop_last() =~= s);
    assert(s.push(b).last() == b);
}

/// Indexing into the bit stream of a byte sequence.
pub proof fn lemma_bytes_bits_index(s: Seq<u8>, k: int)
    requires
        0 <= k < 8 * s.len(),
    ensures
        bytes_bits(s).len() == 8 * s.len(),
        bytes_bits(s)[k] == u8_bit(s[k / 8], (7 - (k % 8)) as u8),
    decreases s.len(),
{
    lemma_bytes_bits_len(s);
    if s.len() > 0 {
        let n = s.len() - 1;
        lemma_bytes_bits_len(s.drop_last());
        if k < 8 * n {
            lemma_bytes_bits_index(s.drop_last(), k);
        } else {
            assert(bytes_bits(s)[k] == byte_bits(s.last())[k - 8 * n]);
            lemma_fundamental_div_mod_converse(k, 8, n, k - 8 * n);
        }
    }
}

/// The value of `n` low bits is below `pow2(n)`.
pub proof fn lemma_uint_of_bits_bound(s: Seq<bool>)
    ensures
        uint_of_bits(s) < pow2(s.len()),
    decreases s.len(),
{
    if s.len() == 0 {
        assert(pow2(0) == 1) by {
            vstd::arithmetic::power2::lemma_pow2(0);
            vstd::arithmetic::power::lemma_pow0(2);
        }
    } else {
        vstd::arithmetic::power2::lemma_pow2_unfold(s.len());
        lemma_uint_of_bits_bound(s.drop_last());
    }
}

proof fn lemma_u64_shr_bits(v: u64, k: u64, k1: u64)
    by (bit_vector)
    requires
        k < 63,
        k1 == k + 1,
    ensures
        u64_bit(v >> 1, k) == u64_bit(v, k1),
        (v >> 1) == v / 2,
        u64_bit(v, 0) == (v % 2 == 1),
{
}

/// Reading back the `n` low bits of `v` yields `v % pow2(n)`.
pub proof fn lemma_uint_of_bits_of_uint(v: u64, n: nat)
    requires
        n <= 64,
    ensures
        uint_of_bits(bits_of_uint(v, n)) == (v as nat) % pow2(n),
    decreases n,
{
    if n == 0 {
        vstd::arithmetic::power2::lemma_pow2(0);
        vstd::arithmetic::power::lemma_pow0(2);
    } else {
        let s = bits_of_uint(v, n);
        assert forall|i: int| 0 <= i < n - 1 implies s.drop_last()[i] == bits_of_uint(
            v >> 1,
            (n - 1) as nat,
        )[i] by {
            lemma_u64_shr_bits(v, (n - 2 - i) as u64, (n - 1 - i) as u64);
        }
        assert(s.drop_last() =~= bits_of_uint(v >> 1, (n - 1) as nat));
        lemma_u64_shr_bits(v, 0, 1);
        assert(s.last() == u64_bit(v, 0));
        lemma_uint_of_bits_of_uint(v >> 1, (n - 1) as nat);
        let m = pow2((n - 1) as nat);
        vstd::arithmetic::power2::lemma_pow2_pos((n - 1) as nat);
        vstd::arithmetic::power2::lemma_pow2_unfold(n);
        assert(pow2(n) == 2 * m);
        assert(uint_of_bits(s) == ((v / 2) as nat % m) * 2 + (if v % 2 == 1 {
            1nat
        } else {
            0nat
        }));
        assert((v as int) % (2 * (m as int)) == ((v as int) / 2 % (m as int)) * 2 + (v as int) % 2) by {
            lemma_mod_mul2(v as int, m as int);
        }
    }
}

/// `x % (2 * m)` split into the low bit and the rest.
proof fn lemma_mod_mul2(x: int, m: int)
    requires
        m > 0,
        x >= 0,
    ensures
        x % (2 * m) == (x / 2 % m) * 2 + x % 2,
    decreases x,
{
    if x < 2 * m {
        vstd::arithmetic::div_mod::lemma_small_mod(x as nat, (2 * m) as nat);
        vstd::arithmetic::div_mod::lemma_small_mod((x / 2) as nat, m as nat);
    } else {
        lemma_mod_mul2(x - 2 * m, m);
        assert(x % (2 * m) == (x - 2 * m) % (2 * m)) by {
            lemma_mod_multiples_vanish(-1, x, 2 * m);
        }
        assert((x - 2 * m) / 2 == x / 2 - m);
        assert((x / 2 - m) % m == (x / 2) % m) by {
            lemma_mod_multiples_vanish(-1, x / 2, m);
        }
        assert((x - 2 * m) % 2 == x % 2) by {
            lemma_mod_multiples_vanish(-m, x, 2);
        }
    }
}

/// Appends single bits to a growing byte buffer, most significant bit of each
/// byte first.
pub struct BitWriter {
    buffer: Vec<u8>,
    current_byte: u8,
    bit_position: u8,
}

impl BitWriter {
    /// The partial byte is clean below the cursor.
    pub closed spec fn wf(self) -> bool {
        self.bit_position < 8 && (self.current_byte & (0xFFu8 >> self.bit_position)) == 0
    }

    /// Every bit written so far, in order.
    pub closed spec fn bits(self) -> Seq<bool> {
        bytes_bits(self.buffer@) + byte_bits(self.current_byte).take(self.bit_position as int)
    }

    pub fn new() -> (w: BitWriter)
        ensures
            w.wf(),
            w.bits() == Seq::<bool>::empty(),
    {
        let w = BitWriter { buffer: Vec::new(), current_byte: 0, bit_position: 0 };
        proof {
            lemma_u8_empty_mask();
            assert(w.bits() =~= Seq::<bool>::empty());
        }
        w
    }

    /// Append a single bit.
    pub fn write_bit(&mut self, bit: bool)
        requires
            old(self).wf(),
        ensures
            final(self).wf(),
            final(self).bits() == old(self).bits().push(bit),
    {
        let ghost prev = *self;
        let pos = self.bit_position;
        let ghost b = self.current_byte;
        if bit {
            self.current_byte = self.current_byte | (128u8 >> pos);
        }
        let ghost b2 = self.current_byte;
        proof {
            let q = (7 - pos) as u8;
            let pos2 = (pos + 1) as u8;
            lemma_u8_write_bit(b, pos, q, pos2, 0);
            assert forall|i: int| 0 <= i < pos implies byte_bits(b2)[i] == byte_bits(b)[i] by {
                lemma_u8_write_bit(b, pos, q, pos2, (7 - i) as u8);
            }
            assert(byte_bits(b2)[pos as int] == bit) by {
                lemma_u8_write_bit(b, pos, q, pos2, q);
            }
            assert(byte_bits(b2).take(pos + 1) =~= byte_bits(b).take(pos as int).push(bit));
        }
        self.bit_position = self.bit_position + 1;
        if self.bit_position == 8 {
            proof {
                lemma_bytes_bits_push(self.buffer@, b2);
                assert(byte_bits(b2).take(8) =~= byte_bits(b2));
                lemma_u8_empty_mask();
            }
            self.buffer.push(self.current_byte);
            self.current_byte = 0;
            self.bit_position = 0;
        }
        proof {
            assert(self.bits() =~= prev.bits().push(bit));
        }
    }

    /// Append the `bits` least-significant bits of `value`, most significant
    /// of those first.
    pub fn write_bits(&mut self, value: u64, bits: u8)
        requires
            old(self).wf(),
            bits <= 64,
        ensures
            final(self).wf(),
            final(self).bits() == old(self).bits() + bits_of_uint(value, bits as nat),
    {
        let ghost start = self.bits();
        let ghost all = bits_of_uint(value, bits as nat);
        let mut i: u8 = 0;
        while i < bits
            invariant
                self.wf(),
                i <= bits,
                bits <= 64,
                start == old(self).bits(),
                all == bits_of_uint(value, bits as nat),
                self.bits() == start + all.take(i as int),
            decreases bits - i,
        {
            let shift = bits - 1 - i;
            let bit = ((value >> (shift as u64)) & 1) == 1;
            proof {
                assert(all.take(i + 1) =~= all.take(i as int).push(all[i as int]));
                assert(all[i as int] == u64_bit(value, (bits - 1 - i) as u64));
                assert((start + all.take(i as int)).push(bit) =~= start + all.take(i + 1));
            }
            self.write_bit(bit);
            i = i + 1;
        }
        proof {
            assert(all.take(bits as int) =~= all);
        }
    }

    /// Flush the partial byte (zero-padded) and return the buffer.
    pub fn finish(self) -> (r: Vec<u8>)
        requires
            self.wf(),
        ensures
            bytes_bits(r@) == pad_to_bytes(self.bits()),
            8 * r@.len() == pad_to_bytes(self.bits()).len(),
    {
        proof {
            lemma_bytes_bits_len(self.buffer@);
        }
        let mut buffer = self.buffer;
        if self.bit_position > 0 {
            let ghost n = buffer@.len() as int;
            let ghost pos = self.bit_position as int;
            proof {
                lemma_bytes_bits_push(buffer@, self.current_byte);
                let q = (7 - self.bit_position) as u8;
                let pos2 = (self.bit_position + 1) as u8;
                assert forall|i: int| pos <= i < 8 implies byte_bits(self.current_byte)[i]
                    == false by {
                    lemma_u8_write_bit(self.current_byte, self.bit_position, q, pos2, (7 - i) as u8);
                }
                assert(byte_bits(self.current_byte) =~= byte_bits(self.current_byte).take(pos)
                    + zero_bits((8 - pos) as nat));
                assert((8 * n + pos) % 8 == pos) by {
                    lemma_mod_multiples_vanish(n, pos, 8);
                    vstd::arithmetic::div_mod::lemma_small_mod(pos as nat, 8);
                }
                assert(bytes_bits(buffer@.push(self.current_byte)) =~= pad_to_bytes(self.bits()));
                lemma_bytes_bits_len(buffer@.push(self.current_byte));
            }
            buffer.push(self.current_byte);
        } else {
            proof {
                assert(bytes_bits(buffer@) =~= self.bits());
                assert((8 * buffer@.len()) % 8 == 0) by {
                    lemma_mod_multiples_vanish(buffer@.len() as int, 0, 8);
                    vstd::arithmetic::div_mod::lemma_small_mod(0, 8);
                }
                assert(bytes_bits(buffer@) =~= pad_to_bytes(self.bits()));
            }
        }
        buffer
    }

    /// Total bits written so far, including the unflushed partial byte.
    pub fn bit_count(&self) -> (r: u128)
        requires
            self.wf(),
        ensures
            r == self.bits().len(),
    {
        proof {
            lemma_bytes_bits_len(self.buffer@);
        }
        (self.buffer.len() as u128) * 8 + (self.bit_position as u128)
    }
}

/// Consumes bits from a byte buffer in the order `BitWriter` wrote them.
pub struct BitReader {
    buffer: Vec<u8>,
    byte_position: usize,
    bit_position: u8,
}

impl BitReader {
    /// The whole underlying bit stream.
    pub closed spec fn stream(self) -> Seq<bool> {
        bytes_bits(self.buffer@)
    }

    /// How many bits have been consumed.
    pub closed spec fn pos(self) -> int {
        8 * self.byte_position + self.bit_position
    }

    pub closed spec fn wf(self) -> bool {
        &&& self.bit_position < 8
    &&& self.byte_position <= self.buffer@.len()
    &&& (self.byte_position == self.buffer@.len() ==> self.bit_position == 0)
    }

    pub fn new(buffer: Vec<u8>) -> (r: BitReader)
        ensures
            r.wf(),
            r.stream() == bytes_bits(buffer@),
            r.pos() == 0,
    {
        BitReader { buffer, byte_position: 0, bit_position: 0 }
    }

    /// The cursor never runs past the end of the stream.
    pub proof fn lemma_pos_bound(&self)
        requires
            self.wf(),
        ensures
            0 <= self.pos() <= self.stream().len(),
    {
        lemma_bytes_bits_len(self.buffer@);
    }

    /// Read one bit; `None` once the buffer is exhausted.
    pub fn read_bit(&mut self) -> (r: Option<bool>)
        requires
            old(self).wf(),
        ensures
            final(self).wf(),
            final(self).stream() == old(self).stream(),
            old(self).pos() < old(self).stream().len() ==> r == Some(
                old(self).stream()[old(self).pos()],
            ) && final(self).pos() == old(self).pos() + 1,
            old(self).pos() >= old(self).stream().len() ==> r == None::<bool> && final(self).pos()
                == old(self).pos(),
    {
        proof {
            lemma_bytes_bits_len(self.buffer@);
        }
        if self.byte_position >= self.buffer.len() {
            return None;
        }
        let byte = self.buffer[self.byte_position];
        let bit = ((byte >> (7 - self.bit_position)) & 1) == 1;
        proof {
            lemma_bytes_bits_index(self.buffer@, self.pos());
            lemma_fundamental_div_mod_converse(
                self.pos(),
                8,
                self.byte_position as int,
                self.bit_position as int,
            );
        }
        self.bit_position = self.bit_position + 1;
        if self.bit_position == 8 {
            self.byte_position = self.byte_position + 1;
            self.bit_position = 0;
        }
        Some(bit)
    }

    /// Read `bits` bits into the low end of a `u64`; `None` if the stream runs
    /// out first.
    pub fn read_bits(&mut self, bits: u8) -> (r: Option<u64>)
        requires
            old(self).wf(),
            bits <= 64,
        ensures
            final(self).wf(),
            final(self).stream() == old(self).stream(),
            old(self).pos() + bits <= old(self).stream().len() ==> r == Some(
                uint_of_bits(
                    old(self).stream().subrange(old(self).pos(), old(self).pos() + bits),
                ) as u64,
            ) && final(self).pos() == old(self).pos() + bits,
            old(self).pos() + bits > old(self).stream().len() ==> r == None::<u64>
                && final(self).pos() == old(self).stream().len(),
    {
        let ghost p0 = old(self).pos();
        let ghost s = old(self).stream();
        proof {
            lemma_bytes_bits_len(self.buffer@);
            lemma2_to64();
        }
        let mut value: u64 = 0;
        let mut i: u8 = 0;
        while i < bits
            invariant
                self.wf(),
                s == old(self).stream(),
                p0 == old(self).pos(),
                self.stream() == s,
                i <= bits,
                bits <= 64,
                p0 + i <= s.len(),
                self.pos() == p0 + i,
                value == uint_of_bits(s.subrange(p0, p0 + i)),
                value < pow2(i as nat),
            decreases bits - i,
        {
            let b = match self.read_bit() {
                Some(b) => b,
                None => {
                    proof {
                        lemma_bytes_bits_len(self.buffer@);
                    }
                    return None;
                },
            };
            proof {
                assert(s.subrange(p0, p0 + i + 1).drop_last() =~= s.subrange(p0, p0 + i));
                assert(s.subrange(p0, p0 + i + 1).last() == s[p0 + i]);
                lemma_pow2_strictly_increases(i as nat, (i + 1) as nat);
                if i < 63 {
                    lemma_pow2_strictly_increases(i as nat, 63);
                }
                lemma2_to64();
                vstd::arithmetic::power2::lemma2_to64_rest();
                vstd::arithmetic::power2::lemma_pow2_unfold((i + 1) as nat);
            }
            value = value * 2 + (if b {
                1
            } else {
                0
            });
            i = i + 1;
        }
        proof {
            assert(s.subrange(p0, p0 + bits) == s.subrange(p0, p0 + i));
        }
        Some(value)
    }
}

} // verus!
