//! A block is a fixed-duration chunk of one series: it keeps the raw points
//! for range queries and re-derives the compressed bit form on every insert.
//! The compressed layout is a 64-bit start-time anchor, a 14-bit offset of
//! the first timestamp, the first value's 64 raw bits, then one delta-of-delta
//! field and one XOR field per further point.

use vstd::prelude::*;
use vstd::arithmetic::power2::pow2;
use vstd::arithmetic::div_mod::lemma_small_mod;
use crate::bitstream::{
    BitWriter, BitReader, bits_of_uint, uint_of_bits, bytes_bits, pad_to_bytes,
    lemma_uint_of_bits_of_uint, lemma_uint_of_bits_bound,
};
use crate::timestamp::{
    TimestampCompressor, TimestampDecompressor, wrap_u64, wrap_i64, ts_delta, ts_dod, dod_enc,
    dod_dec, lemma_wrap_u64_range, lemma_wrap_plus, lemma_dod_round_trip, lemma_dod_dec_len,
};
use crate::value::{
    ValueCompressor, ValueDecompressor, val_enc, val_dec, val_next_state, val_recoverable,
    lemma_val_round_trip, lemma_lead_trail, lemma_val_dec_len, val_reuse,
};

verus! {

/// Every block covers this many seconds (two hours).
pub const BLOCK_DURATION: u64 = 7200;

/// One sample: a timestamp and the raw IEEE-754 bit pattern of its value.
#[derive(Clone, Copy, PartialEq, Eq, Structural, Debug)]
pub struct DataPoint {
    pub timestamp: u64,
    pub value_bits: u64,
}

/// The bits encoding every point after the first, given the codec states
/// seeded from the first point: `(prev_ts, prev_delta)` for timestamps and
/// `(prev value bits, leading, trailing)` for values.
pub open spec fn points_enc(
    prev_ts: u64,
    prev_delta: i64,
    vstate: (u64, u32, u32),
    pts: Seq<DataPoint>,
) -> Seq<bool>
    decreases pts.len(),
{
    if pts.len() == 0 {
        Seq::empty()
    } else {
        let p = pts[0];
        let d = ts_dod(prev_ts, prev_delta, p.timestamp);
        let xor = p.value_bits ^ vstate.0;
        let ns = val_next_state(xor, vstate.1, vstate.2);
        dod_enc(d) + val_enc(xor, vstate.1, vstate.2) + points_enc(
            p.timestamp,
            ts_delta(prev_ts, p.timestamp),
            (p.value_bits, ns.0, ns.1),
            pts.drop_first(),
        )
    }
}

/// The block header: start-time anchor, the first point's offset from it in
/// 14 bits, and the first value's raw bits.
pub open spec fn block_header(start: u64, p0: DataPoint) -> Seq<bool> {
    bits_of_uint(start, 64) + bits_of_uint(wrap_u64(p0.timestamp - start), 14) + bits_of_uint(
        p0.value_bits,
        64,
    )
}

/// The whole bit stream of a block; an empty block encodes to nothing.
pub open spec fn block_enc(start: u64, pts: Seq<DataPoint>) -> Seq<bool> {
    if pts.len() == 0 {
        Seq::empty()
    } else {
        block_header(start, pts[0]) + points_enc(
            pts[0].timestamp,
            0i64,
            (pts[0].value_bits, 0u32, 0u32),
            pts.drop_first(),
        )
    }
}

/// Whether a block starting at `block_start` touches the query interval
/// `[start, end]`: the block's end boundary and the query ends are all
/// inclusive.
pub open spec fn block_overlap(block_start: u64, start: u64, end: u64) -> bool {
    !(end < block_start || start > block_start + BLOCK_DURATION)
}

/// The points whose timestamps lie in `[start, end]`, both ends inclusive,
/// in their stored order.
pub open spec fn points_in_range(pts: Seq<DataPoint>, start: u64, end: u64) -> Seq<DataPoint>
    decreases pts.len(),
{
    if pts.len() == 0 {
        Seq::empty()
    } else {
        let rest = points_in_range(pts.drop_last(), start, end);
        if start <= pts.last().timestamp <= end {
            rest.push(pts.last())
        } else {
            rest
        }
    }
}

/// A two-hour chunk of one series: raw points for querying plus the
/// compressed byte form, which always equals the encoding of those points.
pub struct TimeSeriesBlock {
    pub start_time: u64,
    points: Vec<DataPoint>,
    compressed_data: Vec<u8>,
    compressed_size: usize,
}

impl TimeSeriesBlock {
    /// The block's aligned start time.
    pub closed spec fn start_spec(self) -> u64 {
        self.start_time
    }

    /// The stored points, in insertion order.
    pub closed spec fn points_seq(self) -> Seq<DataPoint> {
        self.points@
    }

    /// The compressed byte form.
    pub closed spec fn compressed_seq(self) -> Seq<u8> {
        self.compressed_data@
    }

    /// The compressed bytes are exactly the zero-padded encoding of the
    /// stored points.
    pub closed spec fn wf(self) -> bool {
        &&& bytes_bits(self.compressed_data@) == pad_to_bytes(
            block_enc(self.start_time, self.points@),
        )
        &&& 8 * self.compressed_data@.len() == pad_to_bytes(
            block_enc(self.start_time, self.points@),
        ).len()
        &&& self.compressed_size == self.compressed_data@.len()
    }

    pub fn new(start_time: u64) -> (r: TimeSeriesBlock)
        ensures
            r.wf(),
            r.start_spec() == start_time,
            r.points_seq() == Seq::<DataPoint>::empty(),
            r.compressed_seq() == Seq::<u8>::empty(),
    {
        let r = TimeSeriesBlock {
            start_time,
            points: Vec::new(),
            compressed_data: Vec::new(),
            compressed_size: 0,
        };
        proof {
            assert(bytes_bits(r.compressed_data@) =~= pad_to_bytes(
                block_enc(start_time, r.points@),
            ));
        }
        r
    }

    pub fn start(&self) -> (r: u64)
        ensures
            r == self.start_spec(),
    {
        self.start_time
    }

    pub fn point_count(&self) -> (r: usize)
        ensures
            r == self.points_seq().len(),
    {
        self.points.len()
    }

    pub fn compressed_len(&self) -> (r: usize)
        requires
            self.wf(),
        ensures
            r == self.compressed_seq().len(),
    {
        self.compressed_size
    }

    /// A copy of the compressed bytes, for decoding.
    pub fn compressed_bytes(&self) -> (r: Vec<u8>)
        ensures
            r@ == self.compressed_seq(),
    {
        let mut out: Vec<u8> = Vec::new();
        let mut i: usize = 0;
        while i < self.compressed_data.len()
            invariant
                i <= self.compressed_data@.len(),
                out@ == self.compressed_data@.take(i as int),
            decreases self.compressed_data@.len() - i,
        {
            out.push(self.compressed_data[i]);
            proof {
                assert(self.compressed_data@.take(i + 1) =~= self.compressed_data@.take(
                    i as int,
                ).push(self.compressed_data@[i as int]));
            }
            i = i + 1;
        }
        proof {
            assert(self.compressed_data@.take(self.compressed_data@.len() as int)
                =~= self.compressed_data@);
        }
        out
    }

    /// Append a point and re-derive the compressed form of the whole block.
    pub fn add_point(&mut self, timestamp: u64, value_bits: u64)
        requires
            old(self).wf(),
        ensures
            final(self).wf(),
            final(self).start_spec() == old(self).start_spec(),
            final(self).points_seq() == old(self).points_seq().push(
                DataPoint { timestamp, value_bits },
            ),
    {
        self.points.push(DataPoint { timestamp, value_bits });
        self.compress();
    }

    /// Recompute the compressed bytes from every stored point.
    fn compress(&mut self)
        requires
            old(self).points@.len() > 0,
        ensures
            final(self).wf(),
            final(self).start_spec() == old(self).start_spec(),
            final(self).points_seq() == old(self).points_seq(),
    {
        let ghost pts = self.points@;
        let ghost target = block_enc(self.start_time, pts);

        let mut writer = BitWriter::new();

        writer.write_bits(self.start_time, 64);

        let p0 = self.points[0];
        let first_delta = p0.timestamp.wrapping_sub(self.start_time);
        proof {
            lemma_wrap_u64_range(p0.timestamp - self.start_time);
        }
        writer.write_bits(first_delta, 14);

        writer.write_bits(p0.value_bits, 64);

        proof {
            assert(writer.bits() =~= block_header(self.start_time, p0));
        }

        let mut ts_compressor = TimestampCompressor::new(p0.timestamp);
        let mut val_compressor = ValueCompressor::new(p0.value_bits);

        let mut i: usize = 1;
        while i < self.points.len()
            invariant
                1 <= i <= pts.len(),
                pts == self.points@,
                target == block_enc(self.start_time, pts),
                pts.len() > 0,
                p0 == pts[0],
                writer.wf(),
                val_compressor@.1 + val_compressor@.2 <= 64,
                writer.bits() + points_enc(
                    ts_compressor@.0,
                    ts_compressor@.1,
                    val_compressor@,
                    pts.skip(i as int),
                ) == target,
            decreases pts.len() - i,
        {
            let p = self.points[i];
            let ghost suffix = pts.skip(i as int);
            proof {
                assert(suffix[0] == p);
                assert(suffix.drop_first() =~= pts.skip(i + 1));
            }
            let ghost bits0 = writer.bits();
            let ghost st0 = ts_compressor@;
            let ghost vs0 = val_compressor@;
            let ghost d = ts_dod(st0.0, st0.1, p.timestamp);
            let ghost xor = p.value_bits ^ vs0.0;
            ts_compressor.add_timestamp(&mut writer, p.timestamp);
            val_compressor.add_value(&mut writer, p.value_bits);
            proof {
                let a = dod_enc(d);
                let b = val_enc(xor, vs0.1, vs0.2);
                let c = points_enc(
                    ts_compressor@.0,
                    ts_compressor@.1,
                    val_compressor@,
                    pts.skip(i + 1),
                );
                assert(points_enc(st0.0, st0.1, vs0, suffix) == a + b + c);
                assert(((bits0 + a) + b) + c =~= bits0 + (a + b + c));
            }
            i = i + 1;
        }

        let data = writer.finish();
        self.compressed_size = data.len();
        self.compressed_data = data;
    }

    /// Whether this block's window touches the query interval; both the
    /// block's end boundary and the query's ends are inclusive.
    pub fn overlaps(&self, start: u64, end: u64) -> (r: bool)
        requires
            self.start_spec() + BLOCK_DURATION <= u64::MAX,
        ensures
            r == block_overlap(self.start_spec(), start, end),
    {
        let block_end = self.start_time + BLOCK_DURATION;
        !(end < self.start_time || start > block_end)
    }

    /// Decode a compressed block back into its start time and points, given
    /// how many points it holds. `None` exactly where the spec decoder
    /// rejects the stream as too short.
    pub fn decode(&self, count: usize) -> (r: Option<(u64, Vec<DataPoint>)>)
        ensures
            block_dec(bytes_bits(self.compressed_seq()), count as nat) is None ==> r
                is None,
            ({
                let d = block_dec(bytes_bits(self.compressed_seq()), count as nat);
                d matches Some((start, pts)) ==> (r matches Some(rr) && rr.0 == start && rr.1@
                    == pts)
            }),
    {
        let data = self.compressed_bytes();
        decode_block(data, count)
    }

    /// Round trip for this block: when its stored points are recoverable,
    /// the spec decoder applied to its own compressed bytes yields exactly
    /// its start time and points.
    pub proof fn lemma_compressed_round_trip(self)
        requires
            self.wf(),
            block_recoverable(self.start_spec(), self.points_seq()),
        ensures
            block_dec(bytes_bits(self.compressed_seq()), self.points_seq().len()) == Some(
                (self.start_spec(), self.points_seq()),
            ),
    {
        lemma_block_round_trip(self.start_spec(), self.points_seq());
    }

    /// The stored points with timestamps in `[start, end]`, inclusive.
    pub fn get_points(&self, start: u64, end: u64) -> (r: Vec<DataPoint>)
        ensures
            r@ == points_in_range(self.points_seq(), start, end),
    {
        let mut result: Vec<DataPoint> = Vec::new();
        let mut i: usize = 0;
        while i < self.points.len()
            invariant
                i <= self.points@.len(),
                result@ == points_in_range(self.points@.take(i as int), start, end),
            decreases self.points@.len() - i,
        {
            let p = self.points[i];
            proof {
                assert(self.points@.take(i + 1).drop_last() =~= self.points@.take(i as int));
                assert(self.points@.take(i + 1).last() == p);
            }
            if p.timestamp >= start && p.timestamp <= end {
                result.push(p);
            }
            i = i + 1;
        }
        proof {
            assert(self.points@.take(self.points@.len() as int) =~= self.points@);
        }
        result
    }
}

/// What a decoder reads for `count` further points from the front of `s`,
/// carrying the same codec states the encoder carried.
pub open spec fn points_dec(
    s: Seq<bool>,
    prev_ts: u64,
    prev_delta: i64,
    vstate: (u64, u32, u32),
    count: nat,
) -> Option<Seq<DataPoint>>
    decreases count,
{
    if count == 0 {
        Some(Seq::<DataPoint>::empty())
    } else {
        match dod_dec(s) {
            None => None,
            Some((d, c1)) => {
                let delta = wrap_i64(prev_delta + d);
                let ts = wrap_u64(prev_ts + delta);
                match val_dec(s.skip(c1), vstate.1, vstate.2) {
                    None => None,
                    Some((xor, c2, pl2, pt2)) => {
                        let vb = vstate.0 ^ xor;
                        match points_dec(
                            s.skip(c1 + c2),
                            ts,
                            delta,
                            (vb, pl2, pt2),
                            (count - 1) as nat,
                        ) {
                            None => None,
                            Some(rest) => Some(
                                seq![DataPoint { timestamp: ts, value_bits: vb }] + rest,
                            ),
                        }
                    },
                }
            },
        }
    }
}

/// What a decoder reads from a whole block stream holding `count` points.
pub open spec fn block_dec(s: Seq<bool>, count: nat) -> Option<(u64, Seq<DataPoint>)> {
    if count == 0 {
        Some((0u64, Seq::<DataPoint>::empty()))
    } else if s.len() < 142 {
        None
    } else {
        let start = uint_of_bits(s.subrange(0, 64)) as u64;
        let fd = uint_of_bits(s.subrange(64, 78));
        let vb = uint_of_bits(s.subrange(78, 142)) as u64;
        let ts0 = wrap_u64(start + fd);
        match points_dec(s.skip(142), ts0, 0i64, (vb, 0u32, 0u32), (count - 1) as nat) {
            None => None,
            Some(rest) => Some(
                (start, seq![DataPoint { timestamp: ts0, value_bits: vb }] + rest),
            ),
        }
    }
}

/// Decode the remaining `count - i` points of a block, appending to `out`,
/// with both codec states already seeded.
#[verifier::rlimit(100)]
fn decode_points(
    reader: &mut BitReader,
    tdec: &mut TimestampDecompressor,
    vdec: &mut ValueDecompressor,
    out: &mut Vec<DataPoint>,
    count: usize,
) -> (ok: bool)
    requires
        old(reader).wf(),
        old(vdec)@.1 + old(vdec)@.2 <= 64,
    ensures
        ({
            let dec = points_dec(
                old(reader).stream().skip(old(reader).pos()),
                old(tdec)@.0,
                old(tdec)@.1,
                old(vdec)@,
                count as nat,
            );
            match dec {
                None => !ok,
                Some(rest) => ok && final(out)@ == old(out)@ + rest,
            }
        }),
{
    let ghost s = reader.stream();
    let ghost out0 = out@;
    let mut i: usize = 0;
    while i < count
        invariant
            i <= count,
            reader.wf(),
            reader.stream() == s,
            vdec@.1 + vdec@.2 <= 64,
            ({
                let dec = points_dec(
                    s.skip(old(reader).pos()),
                    old(tdec)@.0,
                    old(tdec)@.1,
                    old(vdec)@,
                    count as nat,
                );
                match points_dec(
                    s.skip(reader.pos()),
                    tdec@.0,
                    tdec@.1,
                    vdec@,
                    (count - i) as nat,
                ) {
                    None => dec is None,
                    Some(rest) => dec matches Some(all) && out0 + all == out@ + rest,
                }
            }),
            s == old(reader).stream(),
            out0 == old(out)@,
        decreases count - i,
    {
        let ghost p0s = reader.pos();
        let ghost suffix = s.skip(p0s);
        let ghost st0 = tdec@;
        let ghost vs0 = vdec@;
        let ghost remaining = (count - i) as nat;
        proof {
            reader.lemma_pos_bound();
            lemma_dod_dec_len(suffix);
        }
        let ts = match tdec.next_timestamp(reader) {
            Some(t) => t,
            None => {
                return false;
            },
        };
        proof {
            reader.lemma_pos_bound();
            assert(s.skip(reader.pos()) =~= suffix.skip(reader.pos() - p0s));
            lemma_val_dec_len(s.skip(reader.pos()), vdec@.1, vdec@.2);
        }
        let v = match vdec.next_value(reader) {
            Some(v) => v,
            None => {
                return false;
            },
        };
        proof {
            reader.lemma_pos_bound();
            assert(s.skip(reader.pos()) =~= suffix.skip(reader.pos() - p0s));
            let d = dod_dec(suffix)->Some_0;
            let c1 = d.1;
            let w = val_dec(suffix.skip(c1), vs0.1, vs0.2)->Some_0;
            let c2 = w.1;
            assert(suffix.skip(c1 + c2) =~= suffix.skip(c1).skip(c2));
            assert(s.skip(reader.pos()) =~= suffix.skip(c1 + c2));
            let p = DataPoint { timestamp: ts, value_bits: v };
            match points_dec(suffix.skip(c1 + c2), tdec@.0, tdec@.1, vdec@, (remaining - 1) as nat) {
                None => {
                    assert(points_dec(suffix, st0.0, st0.1, vs0, remaining) is None);
                },
                Some(rest2) => {
                    assert(points_dec(suffix, st0.0, st0.1, vs0, remaining) == Some(
                        seq![p] + rest2,
                    ));
                    assert((out@ + seq![p]) + rest2 =~= out@ + (seq![p] + rest2));
                    assert(out@.push(p) =~= out@ + seq![p]);
                },
            }
        }
        out.push(DataPoint { timestamp: ts, value_bits: v });
        i = i + 1;
    }
    proof {
        assert(points_dec(s.skip(reader.pos()), tdec@.0, tdec@.1, vdec@, 0) == Some(
            Seq::<DataPoint>::empty(),
        ));
        assert(out@ + Seq::<DataPoint>::empty() =~= out@);
    }
    true
}

/// Decode `count` points from a compressed block's bytes; the result matches
/// the spec decoder exactly.
pub fn decode_block(data: Vec<u8>, count: usize) -> (r: Option<(u64, Vec<DataPoint>)>)
    ensures
        block_dec(bytes_bits(data@), count as nat) is None ==> r is None,
        ({
            let d = block_dec(bytes_bits(data@), count as nat);
            d matches Some((start, pts)) ==> (r matches Some(rr) && rr.0 == start && rr.1@ == pts)
        }),
{
    let ghost s = bytes_bits(data@);
    if count == 0 {
        return Some((0, Vec::new()));
    }
    let mut reader = BitReader::new(data);
    let start = match reader.read_bits(64) {
        Some(v) => v,
        None => {
            proof {
                reader.lemma_pos_bound();
            }
            return None;
        },
    };
    let fd = match reader.read_bits(14) {
        Some(v) => v,
        None => {
            return None;
        },
    };
    let vb = match reader.read_bits(64) {
        Some(v) => v,
        None => {
            return None;
        },
    };
    let ts0 = start.wrapping_add(fd);
    proof {
        lemma_uint_of_bits_bound(s.subrange(64, 78));
        vstd::arithmetic::power2::lemma2_to64();
        lemma_wrap_u64_range(start + fd);
    }
    let mut tdec = TimestampDecompressor::new(ts0);
    let mut vdec = ValueDecompressor::new(vb);
    let mut out: Vec<DataPoint> = Vec::new();
    out.push(DataPoint { timestamp: ts0, value_bits: vb });
    proof {
        assert(out@ =~= seq![DataPoint { timestamp: ts0, value_bits: vb }]);
    }
    let ok = decode_points(&mut reader, &mut tdec, &mut vdec, &mut out, count - 1);
    if !ok {
        return None;
    }
    proof {
        let d = block_dec(s, count as nat);
        if d is Some {
            let pts = d->Some_0.1;
            let rest = points_dec(
                s.skip(142),
                ts0,
                0i64,
                (vb, 0u32, 0u32),
                (count - 1) as nat,
            )->Some_0;
            assert(seq![DataPoint { timestamp: ts0, value_bits: vb }] + rest =~= pts);
        }
    }
    Some((start, out))
}

/// Every delta-of-delta along `pts` fits the 32-bit bucket, and every value
/// step is recoverable: what the bit encoding cannot corrupt.
pub open spec fn points_recoverable(
    prev_ts: u64,
    prev_delta: i64,
    vstate: (u64, u32, u32),
    pts: Seq<DataPoint>,
) -> bool
    decreases pts.len(),
{
    pts.len() == 0 || {
        let p = pts[0];
        let d = ts_dod(prev_ts, prev_delta, p.timestamp);
        let xor = p.value_bits ^ vstate.0;
        let ns = val_next_state(xor, vstate.1, vstate.2);
        &&& -0x8000_0000 <= d <= 0x7FFF_FFFF
        &&& val_recoverable(xor, vstate.1, vstate.2)
        &&& points_recoverable(
            p.timestamp,
            ts_delta(prev_ts, p.timestamp),
            (p.value_bits, ns.0, ns.1),
            pts.drop_first(),
        )
    }
}

/// A block decodes back exactly when the first timestamp's offset fits the
/// 14-bit header field and every later step is recoverable.
pub open spec fn block_recoverable(start: u64, pts: Seq<DataPoint>) -> bool {
    &&& pts.len() > 0
    &&& wrap_u64(pts[0].timestamp - start) < 16384
    &&& points_recoverable(
        pts[0].timestamp,
        0i64,
        (pts[0].value_bits, 0u32, 0u32),
        pts.drop_first(),
    )
}

proof fn lemma_xor_cancel(a: u64, b: u64)
    by (bit_vector)
    ensures
        a ^ (b ^ a) == b,
{
}

/// Round trip for the per-point stream: a decoder in the same starting states
/// reading what `points_enc` produced recovers exactly the same points.
#[verifier::rlimit(100)]
#[verifier::spinoff_prover]
pub proof fn lemma_points_round_trip(
    prev_ts: u64,
    prev_delta: i64,
    vstate: (u64, u32, u32),
    pts: Seq<DataPoint>,
    rest: Seq<bool>,
)
    requires
        vstate.1 + vstate.2 <= 64,
        points_recoverable(prev_ts, prev_delta, vstate, pts),
    ensures
        points_dec(
            points_enc(prev_ts, prev_delta, vstate, pts) + rest,
            prev_ts,
            prev_delta,
            vstate,
            pts.len(),
        ) == Some(pts),
    decreases pts.len(),
{
    if pts.len() == 0 {
        assert(pts =~= Seq::<DataPoint>::empty());
    } else {
        let p = pts[0];
        let d = ts_dod(prev_ts, prev_delta, p.timestamp);
        let delta = ts_delta(prev_ts, p.timestamp);
        let xor = p.value_bits ^ vstate.0;
        let ns = val_next_state(xor, vstate.1, vstate.2);
        let vstate2 = (p.value_bits, ns.0, ns.1);
        let enc0 = dod_enc(d);
        let enc1 = val_enc(xor, vstate.1, vstate.2);
        let tail = points_enc(p.timestamp, delta, vstate2, pts.drop_first());
        let s = points_enc(prev_ts, prev_delta, vstate, pts) + rest;

        assert(s =~= enc0 + (enc1 + (tail + rest)));
        lemma_dod_round_trip(d, enc1 + (tail + rest));
        assert(dod_dec(s) == Some((d, enc0.len() as int)));

        assert(wrap_i64(prev_delta + d) == delta) by {
            lemma_wrap_plus(prev_delta as int, delta - prev_delta);
            crate::timestamp::lemma_wrap_i64_range(delta as int);
        }
        assert(wrap_u64(prev_ts + delta) == p.timestamp) by {
            lemma_wrap_plus(prev_ts as int, p.timestamp - prev_ts);
            lemma_wrap_u64_range(p.timestamp as int);
        }

        assert(s.skip(enc0.len() as int) =~= enc1 + (tail + rest));
        lemma_val_round_trip(xor, vstate.1, vstate.2, tail + rest);
        assert(val_dec(s.skip(enc0.len() as int), vstate.1, vstate.2) == Some(
            (xor, enc1.len() as int, ns.0, ns.1),
        ));

        lemma_xor_cancel(vstate.0, p.value_bits);
        assert(vstate.0 ^ xor == p.value_bits);

        assert(s.skip(enc0.len() + enc1.len() as int) =~= tail + rest);
        if !(xor == 0 || val_reuse(xor, vstate.1, vstate.2)) {
            lemma_lead_trail(xor);
        }
        lemma_points_round_trip(p.timestamp, delta, vstate2, pts.drop_first(), rest);

        assert(points_dec(s, prev_ts, prev_delta, vstate, pts.len()) == Some(
            seq![p] + pts.drop_first(),
        ));
        assert(seq![p] + pts.drop_first() =~= pts);
    }
}

/// Every step of a run of points is recoverable when consecutive timestamps
/// never jump by a billion seconds or more, whatever the values are: from the
/// all-zero window state the value encoding always reuses the full window.
proof fn lemma_points_recoverable_when_regular(
    prev_ts: u64,
    prev_delta: i64,
    vb: u64,
    pts: Seq<DataPoint>,
)
    requires
        -0x3FFF_FFFF <= prev_delta <= 0x3FFF_FFFF,
        pts.len() > 0 ==> -0x3FFF_FFFF <= pts[0].timestamp - prev_ts <= 0x3FFF_FFFF,
        forall|i: int|
            1 <= i < pts.len() ==> -0x3FFF_FFFF <= (#[trigger] pts[i].timestamp) - pts[i - 1].timestamp <= 0x3FFF_FFFF,
    ensures
        points_recoverable(prev_ts, prev_delta, (vb, 0u32, 0u32), pts),
    decreases pts.len(),
{
    if pts.len() > 0 {
        let p = pts[0];
        let delta = p.timestamp - prev_ts;
        crate::timestamp::lemma_wrap_i64_range(delta);
        assert(ts_delta(prev_ts, p.timestamp) == delta);
        crate::timestamp::lemma_wrap_i64_range(delta - prev_delta);
        assert(ts_dod(prev_ts, prev_delta, p.timestamp) == delta - prev_delta);
        let xor = p.value_bits ^ vb;
        if xor != 0 {
            lemma_lead_trail(xor);
            assert(val_reuse(xor, 0u32, 0u32));
        }
        assert(val_next_state(xor, 0u32, 0u32) == (0u32, 0u32));
        let rest = pts.drop_first();
        assert forall|i: int|
            1 <= i < rest.len() implies -0x3FFF_FFFF <= (#[trigger] rest[i].timestamp) - rest[i - 1].timestamp <= 0x3FFF_FFFF by {
            assert(rest[i] == pts[i + 1]);
            assert(rest[i - 1] == pts[i]);
        }
        if rest.len() > 0 {
            assert(rest[0] == pts[1]);
        }
        lemma_points_recoverable_when_regular(
            p.timestamp,
            delta as i64,
            p.value_bits,
            rest,
        );
    }
}

/// A block whose first timestamp sits inside the 14-bit header window and
/// whose consecutive timestamps never jump by a billion seconds or more is
/// recoverable, whatever its value bit patterns are.
pub proof fn lemma_block_recoverable_when_regular(start: u64, pts: Seq<DataPoint>)
    requires
        pts.len() > 0,
        start <= pts[0].timestamp < start + 16384,
        forall|i: int|
            1 <= i < pts.len() ==> -0x3FFF_FFFF <= (#[trigger] pts[i].timestamp) - pts[i - 1].timestamp <= 0x3FFF_FFFF,
    ensures
        block_recoverable(start, pts),
{
    lemma_wrap_u64_range(pts[0].timestamp - start);
    let rest = pts.drop_first();
    assert forall|i: int|
        1 <= i < rest.len() implies -0x3FFF_FFFF <= (#[trigger] rest[i].timestamp) - rest[i - 1].timestamp <= 0x3FFF_FFFF by {
        assert(rest[i] == pts[i + 1]);
        assert(rest[i - 1] == pts[i]);
    }
    if rest.len() > 0 {
        assert(rest[0] == pts[1]);
    }
    lemma_points_recoverable_when_regular(pts[0].timestamp, 0i64, pts[0].value_bits, rest);
}

/// Round trip for a whole block: decoding the padded encoding of a
/// recoverable block yields the original start time and points.
pub proof fn lemma_block_round_trip(start: u64, pts: Seq<DataPoint>)
    requires
        block_recoverable(start, pts),
    ensures
        block_dec(pad_to_bytes(block_enc(start, pts)), pts.len()) == Some((start, pts)),
{
    let p0 = pts[0];
    let fd = wrap_u64(p0.timestamp - start);
    let header = block_header(start, p0);
    let tail = points_enc(p0.timestamp, 0i64, (p0.value_bits, 0u32, 0u32), pts.drop_first());
    let enc = block_enc(start, pts);
    let s = pad_to_bytes(enc);
    let zeros = crate::bitstream::zero_bits(((8 - enc.len() % 8) % 8) as nat);

    vstd::arithmetic::power2::lemma2_to64();
    vstd::arithmetic::power2::lemma2_to64_rest();

    assert(s.subrange(0, 64) =~= bits_of_uint(start, 64));
    lemma_uint_of_bits_of_uint(start, 64);
    lemma_small_mod(start as nat, pow2(64));

    assert(s.subrange(64, 78) =~= bits_of_uint(fd, 14));
    lemma_uint_of_bits_of_uint(fd, 14);
    lemma_small_mod(fd as nat, pow2(14));

    assert(s.subrange(78, 142) =~= bits_of_uint(p0.value_bits, 64));
    lemma_uint_of_bits_of_uint(p0.value_bits, 64);
    lemma_small_mod(p0.value_bits as nat, pow2(64));

    assert(wrap_u64(start + fd) == p0.timestamp) by {
        lemma_wrap_plus(start as int, p0.timestamp - start);
        lemma_wrap_u64_range(p0.timestamp as int);
    }

    assert(s.skip(142) =~= tail + zeros);
    lemma_points_round_trip(
        p0.timestamp,
        0i64,
        (p0.value_bits, 0u32, 0u32),
        pts.drop_first(),
        zeros,
    );

    assert(block_dec(s, pts.len()) == Some((start, seq![p0] + pts.drop_first())));
    assert(seq![p0] + pts.drop_first() =~= pts);
}

} // verus!
