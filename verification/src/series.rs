//! One series: an open block receiving writes plus the ordered closed blocks
//! before it. Rollover closes the open block as soon as a timestamp falls at
//! or past the end of its window. A timestamp before the window is not
//! detected as out-of-order: it simply lands in whichever block is open, an
//! accepted simplification of this design.

use vstd::prelude::*;
use crate::block::{
    TimeSeriesBlock, DataPoint, BLOCK_DURATION, points_in_range, block_overlap,
};

verus! {

/// Uncompressed versus compressed footprint of one series, in bytes.
#[derive(Clone, Copy, PartialEq, Eq, Structural, Debug)]
pub struct StorageStats {
    pub original_size: usize,
    pub compressed_size: usize,
}

/// Total stored points over a run of blocks.
pub open spec fn sum_points(blocks: Seq<TimeSeriesBlock>) -> nat
    decreases blocks.len(),
{
    if blocks.len() == 0 {
        0
    } else {
        sum_points(blocks.drop_last()) + blocks.last().points_seq().len()
    }
}

/// Total compressed bytes over a run of blocks.
pub open spec fn sum_compressed(blocks: Seq<TimeSeriesBlock>) -> nat
    decreases blocks.len(),
{
    if blocks.len() == 0 {
        0
    } else {
        sum_compressed(blocks.drop_last()) + blocks.last().compressed_seq().len()
    }
}

proof fn lemma_sum_prefix(blocks: Seq<TimeSeriesBlock>, i: int)
    requires
        0 <= i <= blocks.len(),
    ensures
        sum_points(blocks.take(i)) <= sum_points(blocks),
        sum_compressed(blocks.take(i)) <= sum_compressed(blocks),
    decreases blocks.len(),
{
    if i < blocks.len() {
        assert(blocks.drop_last().take(i) =~= blocks.take(i));
        lemma_sum_prefix(blocks.drop_last(), i);
    } else {
        assert(blocks.take(i) =~= blocks);
    }
}

/// All stored points of a run of blocks, in block order.
pub open spec fn blocks_points(blocks: Seq<TimeSeriesBlock>) -> Seq<DataPoint>
    decreases blocks.len(),
{
    if blocks.len() == 0 {
        Seq::empty()
    } else {
        blocks_points(blocks.drop_last()) + blocks.last().points_seq()
    }
}

/// What one block contributes to a range query: its matching points if its
/// window overlaps the query, nothing otherwise.
pub open spec fn block_contrib(b: TimeSeriesBlock, start: u64, end: u64) -> Seq<DataPoint> {
    if block_overlap(b.start_spec(), start, end) {
        points_in_range(b.points_seq(), start, end)
    } else {
        Seq::empty()
    }
}

/// Contributions of a run of blocks, concatenated in block order.
pub open spec fn blocks_query(blocks: Seq<TimeSeriesBlock>, start: u64, end: u64) -> Seq<
    DataPoint,
>
    decreases blocks.len(),
{
    if blocks.len() == 0 {
        Seq::empty()
    } else {
        blocks_query(blocks.drop_last(), start, end) + block_contrib(blocks.last(), start, end)
    }
}

/// All points of one metric: one open block taking writes, the closed blocks
/// before it, and the fixed block duration.
pub struct TimeSeries {
    pub key: String,
    open_block: TimeSeriesBlock,
    closed_blocks: Vec<TimeSeriesBlock>,
    block_duration: u64,
}

impl TimeSeries {
    /// The series key, as a character sequence.
    pub closed spec fn key_spec(self) -> Seq<char> {
        self.key@
    }

    /// The block currently taking writes.
    pub closed spec fn open_spec(self) -> TimeSeriesBlock {
        self.open_block
    }

    /// The closed blocks, oldest first.
    pub closed spec fn closed_seq(self) -> Seq<TimeSeriesBlock> {
        self.closed_blocks@
    }

    /// Every block is internally consistent, carries a start time whose
    /// window cannot overflow, and the duration is the fixed one.
    pub closed spec fn wf(self) -> bool {
        &&& self.open_block.wf()
        &&& self.open_block.start_spec() + BLOCK_DURATION <= u64::MAX
        &&& forall|i: int|
            0 <= i < self.closed_blocks@.len() ==> (#[trigger] self.closed_blocks@[i]).wf()
                && self.closed_blocks@[i].start_spec() + BLOCK_DURATION <= u64::MAX
        &&& self.block_duration == BLOCK_DURATION
    }

    /// Total stored points, over the open and all closed blocks.
    pub open spec fn total_points_spec(self) -> nat {
        sum_points(self.closed_seq()) + self.open_spec().points_seq().len()
    }

    /// Total compressed bytes, over the open and all closed blocks.
    pub open spec fn total_compressed_spec(self) -> nat {
        sum_compressed(self.closed_seq()) + self.open_spec().compressed_seq().len()
    }

    /// Every stored point of the series: closed blocks in order, then the
    /// open block.
    pub open spec fn series_points(self) -> Seq<DataPoint> {
        blocks_points(self.closed_seq()) + self.open_spec().points_seq()
    }

    /// Everything a range query returns: closed blocks' matches in block
    /// order, then the open block's.
    pub open spec fn query_spec(self, start: u64, end: u64) -> Seq<DataPoint> {
        blocks_query(self.closed_seq(), start, end) + block_contrib(self.open_spec(), start, end)
    }

    /// Start a series whose first block window is aligned to `now`.
    pub fn new(key: String, now: u64) -> (r: TimeSeries)
        requires
            now + BLOCK_DURATION <= u64::MAX,
        ensures
            r.wf(),
            r.key_spec() == key@,
            r.closed_seq() == Seq::<TimeSeriesBlock>::empty(),
            r.open_spec().points_seq() == Seq::<DataPoint>::empty(),
            r.open_spec().start_spec() == (now / BLOCK_DURATION) * BLOCK_DURATION,
    {
        let block_duration = BLOCK_DURATION;
        let block_start = (now / block_duration) * block_duration;
        TimeSeries {
            key,
            open_block: TimeSeriesBlock::new(block_start),
            closed_blocks: Vec::new(),
            block_duration,
        }
    }

    /// Insert one point. A timestamp at or past the open window's end closes
    /// the open block and opens a new one aligned to the timestamp; the point
    /// then goes into the (possibly new) open block.
    pub fn insert(&mut self, timestamp: u64, value_bits: u64)
        requires
            old(self).wf(),
            timestamp + BLOCK_DURATION <= u64::MAX,
        ensures
            final(self).wf(),
            final(self).key_spec() == old(self).key_spec(),
            final(self).series_points() == old(self).series_points().push(
                DataPoint { timestamp, value_bits },
            ),
            ({
                let p = DataPoint { timestamp, value_bits };
                let rolled = timestamp >= old(self).open_spec().start_spec() + BLOCK_DURATION;
                if rolled {
                    final(self).closed_seq() == old(self).closed_seq().push(
                        old(self).open_spec(),
                    ) && final(self).open_spec().start_spec() == (timestamp / BLOCK_DURATION)
                        * BLOCK_DURATION && final(self).open_spec().points_seq() == seq![p]
                } else {
                    final(self).closed_seq() == old(self).closed_seq()
                        && final(self).open_spec().start_spec()
                        == old(self).open_spec().start_spec()
                        && final(self).open_spec().points_seq()
                        == old(self).open_spec().points_seq().push(p)
                }
            }),
    {
        if timestamp >= self.open_block.start() + self.block_duration {
            let new_start = (timestamp / self.block_duration) * self.block_duration;
            let mut closing = TimeSeriesBlock::new(new_start);
            core::mem::swap(&mut self.open_block, &mut closing);
            self.closed_blocks.push(closing);
        }
        self.open_block.add_point(timestamp, value_bits);
        proof {
            let p = DataPoint { timestamp, value_bits };
            if timestamp >= old(self).open_spec().start_spec() + BLOCK_DURATION {
                assert(self.open_block.points_seq() =~= seq![p]);
                let oldc = old(self).closed_seq();
                let oldb = old(self).open_spec();
                assert(oldc.push(oldb).drop_last() =~= oldc);
                assert(blocks_points(oldc.push(oldb)) == blocks_points(oldc)
                    + oldb.points_seq());
                assert((blocks_points(oldc) + oldb.points_seq()) + seq![p]
                    =~= (blocks_points(oldc) + oldb.points_seq()).push(p));
            } else {
                assert(blocks_points(self.closed_seq())
                    + old(self).open_spec().points_seq().push(p) =~= (blocks_points(
                    self.closed_seq(),
                ) + old(self).open_spec().points_seq()).push(p));
            }
        }
    }

    /// A copy of the series key.
    pub fn key_clone(&self) -> (r: String)
        ensures
            r@ == self.key_spec(),
    {
        self.key.clone()
    }

    /// All points in `[start, end]`, gathered from every overlapping closed
    /// block in block order, then the open block. Not re-sorted by timestamp.
    pub fn query(&self, start: u64, end: u64) -> (r: Vec<DataPoint>)
        requires
            self.wf(),
        ensures
            r@ == self.query_spec(start, end),
    {
        let mut results: Vec<DataPoint> = Vec::new();

        let mut i: usize = 0;
        while i < self.closed_blocks.len()
            invariant
                i <= self.closed_blocks@.len(),
                self.wf(),
                results@ == blocks_query(self.closed_blocks@.take(i as int), start, end),
            decreases self.closed_blocks@.len() - i,
        {
            let block = &self.closed_blocks[i];
            proof {
                assert(self.closed_blocks@.take(i + 1).drop_last() =~= self.closed_blocks@.take(
                    i as int,
                ));
            }
            if block.overlaps(start, end) {
                let mut found = block.get_points(start, end);
                results.append(&mut found);
            } else {
                proof {
                    assert(results@ + Seq::<DataPoint>::empty() =~= results@);
                }
            }
            i = i + 1;
        }
        proof {
            assert(self.closed_blocks@.take(self.closed_blocks@.len() as int)
                =~= self.closed_blocks@);
        }

        if self.open_block.overlaps(start, end) {
            let mut found = self.open_block.get_points(start, end);
            results.append(&mut found);
        } else {
            proof {
                assert(results@ + Seq::<DataPoint>::empty() =~= results@);
            }
        }
        results
    }

    /// Sizes of this series: 16 bytes per raw point against the summed
    /// compressed block bytes.
    pub fn get_stats(&self) -> (r: StorageStats)
        requires
            self.wf(),
            16 * self.total_points_spec() <= usize::MAX,
            self.total_compressed_spec() <= usize::MAX,
        ensures
            r.original_size == 16 * self.total_points_spec(),
            r.compressed_size == self.total_compressed_spec(),
    {
        let mut total_points: usize = 0;
        let mut compressed: usize = 0;

        let mut i: usize = 0;
        while i < self.closed_blocks.len()
            invariant
                i <= self.closed_blocks@.len(),
                self.wf(),
                16 * self.total_points_spec() <= usize::MAX,
                self.total_compressed_spec() <= usize::MAX,
                total_points == sum_points(self.closed_blocks@.take(i as int)),
                compressed == sum_compressed(self.closed_blocks@.take(i as int)),
            decreases self.closed_blocks@.len() - i,
        {
            let block = &self.closed_blocks[i];
            proof {
                assert(self.closed_blocks@.take(i + 1).drop_last() =~= self.closed_blocks@.take(
                    i as int,
                ));
                lemma_sum_prefix(self.closed_blocks@, i + 1);
            }
            total_points = total_points + block.point_count();
            compressed = compressed + block.compressed_len();
            i = i + 1;
        }
        proof {
            assert(self.closed_blocks@.take(self.closed_blocks@.len() as int)
                =~= self.closed_blocks@);
        }

        total_points = total_points + self.open_block.point_count();
        compressed = compressed + self.open_block.compressed_len();

        StorageStats { original_size: total_points * 16, compressed_size: compressed }
    }
}

} // verus!
