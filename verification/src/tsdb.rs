//! The store's facade: insert, range query, stats, delete, full scans, and
//! the candidate selection behind correlation search. Pearson arithmetic over
//! the candidates is floating point and lives with the caller; this module
//! fixes exactly which series may take part.

use vstd::prelude::*;
use crate::block::{DataPoint, BLOCK_DURATION};
use crate::series::TimeSeries;
use crate::tsmap::{TimeSeriesMap, live_series};

verus! {

/// Uncompressed versus compressed footprint of one series, in bytes.
#[derive(Clone, Copy, PartialEq, Eq, Structural, Debug)]
pub struct CompressionStats {
    pub original_size: usize,
    pub compressed_size: usize,
}

/// One series' contribution to a full scan: every stored point, tagged with
/// the series key.
pub open spec fn series_scan_entries(s: TimeSeries) -> Seq<(Seq<char>, u64, u64)> {
    s.query_spec(0, u64::MAX).map_values(|p: DataPoint| (s.key_spec(), p.timestamp, p.value_bits))
}

/// A full scan: every live series' points, in slot order.
pub open spec fn scan_entries(series: Seq<TimeSeries>) -> Seq<(Seq<char>, u64, u64)>
    decreases series.len(),
{
    if series.len() == 0 {
        Seq::empty()
    } else {
        scan_entries(series.drop_last()) + series_scan_entries(series.last())
    }
}

/// The correlation candidates among `series`, in order: every series whose
/// key is not the needle's and whose point count in range equals the
/// needle's. Alignment is by position, not timestamp — a known limitation
/// kept as designed.
pub open spec fn candidates_spec(
    series: Seq<TimeSeries>,
    nkey: Seq<char>,
    start: u64,
    end: u64,
    n: nat,
) -> Seq<(Seq<char>, Seq<DataPoint>)>
    decreases series.len(),
{
    if series.len() == 0 {
        Seq::empty()
    } else {
        let s = series.last();
        candidates_spec(series.drop_last(), nkey, start, end, n) + (if s.key_spec() != nkey
            && s.query_spec(start, end).len() == n {
            seq![(s.key_spec(), s.query_spec(start, end))]
        } else {
            Seq::empty()
        })
    }
}

/// No candidate carries the needle's key, and every candidate has exactly
/// the needle's point count in range.
pub proof fn lemma_candidates_exclude(
    series: Seq<TimeSeries>,
    nkey: Seq<char>,
    start: u64,
    end: u64,
    n: nat,
)
    ensures
        forall|k: int|
            0 <= k < candidates_spec(series, nkey, start, end, n).len() ==> (
            #[trigger] candidates_spec(series, nkey, start, end, n)[k]).0 != nkey
                && candidates_spec(series, nkey, start, end, n)[k].1.len() == n,
    decreases series.len(),
{
    if series.len() > 0 {
        lemma_candidates_exclude(series.drop_last(), nkey, start, end, n);
        let c = candidates_spec(series, nkey, start, end, n);
        let cprev = candidates_spec(series.drop_last(), nkey, start, end, n);
        assert forall|k: int| 0 <= k < c.len() implies (#[trigger] c[k]).0 != nkey && c[k].1.len()
            == n by {
            if k < cprev.len() {
                assert(c[k] == cprev[k]);
            }
        }
    }
}

/// The whole store: one series index.
pub struct Gorilla {
    tsmap: TimeSeriesMap,
}

impl Gorilla {
    pub closed spec fn map_spec(self) -> TimeSeriesMap {
        self.tsmap
    }

    pub open spec fn wf(self) -> bool {
        self.map_spec().wf()
    }

    /// The series stored for `key`, if any.
    pub open spec fn lookup(self, key: Seq<char>) -> Option<TimeSeries> {
        self.map_spec().lookup(key)
    }

    pub fn new() -> (r: Gorilla)
        ensures
            r.wf(),
            r.map_spec().slots_seq() == Seq::<Option<TimeSeries>>::empty(),
            r.map_spec().entries_seq() == Seq::<(String, usize)>::empty(),
    {
        Gorilla { tsmap: TimeSeriesMap::new() }
    }

    /// Insert one point. A known key's series takes it; an unknown key gets a
    /// fresh series whose first block is aligned to the timestamp. No other
    /// key's data changes.
    pub fn insert(&mut self, key: &str, timestamp: u64, value_bits: u64)
        requires
            old(self).wf(),
            timestamp + BLOCK_DURATION <= u64::MAX,
        ensures
            final(self).wf(),
            ({
                let p = DataPoint { timestamp, value_bits };
                match old(self).lookup(key@) {
                    Some(s) => final(self).lookup(key@) matches Some(s2) && s2.key_spec() == key@
                        && s2.series_points() == s.series_points().push(p),
                    None => final(self).lookup(key@) matches Some(s2) && s2.key_spec() == key@
                        && s2.series_points() == seq![p],
                }
            }),
            forall|k2: Seq<char>| k2 != key@ ==> final(self).lookup(k2) == old(self).lookup(k2),
    {
        self.tsmap.insert(key.to_owned(), timestamp, value_bits);
    }

    /// All `(timestamp, value bits)` pairs for `key` in `[start, end]`;
    /// `None` exactly for an unknown key, and an empty list for a known key
    /// with nothing in range.
    pub fn query(&self, key: &str, start: u64, end: u64) -> (r: Option<Vec<(u64, u64)>>)
        requires
            self.wf(),
        ensures
            ({
                match self.lookup(key@) {
                    None => r is None,
                    Some(s) => r matches Some(v) && v@ == s.query_spec(start, end).map_values(
                        |p: DataPoint| (p.timestamp, p.value_bits),
                    ),
                }
            }),
    {
        match self.tsmap.get(key) {
            None => None,
            Some(series) => {
                let pts = series.query(start, end);
                let ghost mapped = pts@.map_values(|p: DataPoint| (p.timestamp, p.value_bits));
                let mut out: Vec<(u64, u64)> = Vec::new();
                let mut i: usize = 0;
                while i < pts.len()
                    invariant
                        i <= pts@.len(),
                        mapped == pts@.map_values(|p: DataPoint| (p.timestamp, p.value_bits)),
                        out@ == mapped.take(i as int),
                    decreases pts@.len() - i,
                {
                    let p = pts[i];
                    proof {
                        assert(mapped.take(i + 1) =~= mapped.take(i as int).push(mapped[i as int]));
                    }
                    out.push((p.timestamp, p.value_bits));
                    i = i + 1;
                }
                proof {
                    assert(mapped.take(mapped.len() as int) =~= mapped);
                }
                Some(out)
            },
        }
    }

    /// Storage totals for `key`: 16 raw bytes per point against the summed
    /// compressed bytes. An unknown key reports zeroes.
    pub fn get_stats(&self, key: &str) -> (r: CompressionStats)
        requires
            self.wf(),
            self.lookup(key@) matches Some(s) ==> 16 * s.total_points_spec() <= usize::MAX
                && s.total_compressed_spec() <= usize::MAX,
        ensures
            ({
                match self.lookup(key@) {
                    None => r.original_size == 0 && r.compressed_size == 0,
                    Some(s) => r.original_size == 16 * s.total_points_spec() && r.compressed_size
                        == s.total_compressed_spec(),
                }
            }),
    {
        match self.tsmap.get(key) {
            None => CompressionStats { original_size: 0, compressed_size: 0 },
            Some(series) => {
                let stats = series.get_stats();
                CompressionStats {
                    original_size: stats.original_size,
                    compressed_size: stats.compressed_size,
                }
            },
        }
    }

    /// Tombstone a key's series; deleting an absent key changes nothing, so
    /// a second delete is a no-op.
    pub fn delete(&mut self, key: &str)
        requires
            old(self).wf(),
        ensures
            final(self).wf(),
            final(self).lookup(key@) is None,
            forall|k2: Seq<char>| k2 != key@ ==> final(self).lookup(k2) == old(self).lookup(k2),
            old(self).lookup(key@) is None ==> final(self).map_spec() == old(self).map_spec(),
    {
        self.tsmap.delete(key);
    }

    /// Every point of every live series, in slot order, each tagged with its
    /// series key.
    pub fn scan(&self) -> (r: Vec<(String, u64, u64)>)
        requires
            self.wf(),
        ensures
            r@.map_values(|t: (String, u64, u64)| (t.0@, t.1, t.2)) == scan_entries(
                live_series(self.map_spec().slots_seq()),
            ),
    {
        let ghost live = live_series(self.map_spec().slots_seq());
        let list = self.tsmap.scan();
        let mut out: Vec<(String, u64, u64)> = Vec::new();
        let ghost tview = |t: (String, u64, u64)| (t.0@, t.1, t.2);
        let mut i: usize = 0;
        while i < list.len()
            invariant
                i <= list@.len(),
                list@.len() == live.len(),
                forall|k: int| 0 <= k < list@.len() ==> *(#[trigger] list@[k]) == live[k],
                forall|k: int| 0 <= k < list@.len() ==> (#[trigger] list@[k]).wf(),
                tview == (|t: (String, u64, u64)| (t.0@, t.1, t.2)),
                out@.map_values(tview) == scan_entries(live.take(i as int)),
            decreases list@.len() - i,
        {
            let series = list[i];
            let key = series.key_clone();
            let pts = series.query(0, u64::MAX);
            let ghost entries = series_scan_entries(live[i as int]);
            let mut j: usize = 0;
            while j < pts.len()
                invariant
                    j <= pts@.len(),
                    i < list@.len(),
                    list@.len() == live.len(),
                    *list@[i as int] == live[i as int],
                    key@ == live[i as int].key_spec(),
                    pts@ == live[i as int].query_spec(0, u64::MAX),
                    entries == series_scan_entries(live[i as int]),
                    tview == (|t: (String, u64, u64)| (t.0@, t.1, t.2)),
                    out@.map_values(tview) == scan_entries(live.take(i as int)) + entries.take(
                        j as int,
                    ),
                decreases pts@.len() - j,
            {
                let p = pts[j];
                let key_copy = key.clone();
                proof {
                    assert(entries.take(j + 1) =~= entries.take(j as int).push(entries[j as int]));
                    assert(out@.push((key_copy, p.timestamp, p.value_bits)).map_values(tview)
                        =~= out@.map_values(tview).push((key@, p.timestamp, p.value_bits)));
                    assert((scan_entries(live.take(i as int)) + entries.take(j as int)).push(
                        entries[j as int],
                    ) =~= scan_entries(live.take(i as int)) + entries.take(j + 1));
                }
                out.push((key_copy, p.timestamp, p.value_bits));
                j = j + 1;
            }
            proof {
                assert(entries.take(entries.len() as int) =~= entries);
                assert(live.take(i + 1).drop_last() =~= live.take(i as int));
                assert(live.take(i + 1).last() == live[i as int]);
            }
            i = i + 1;
        }
        proof {
            assert(live.take(live.len() as int) =~= live);
        }
        out
    }

    /// The per-series data admitted into a correlation search against
    /// `needle_key` over `[start, end]`: empty if the needle is unknown or
    /// has no points in range; otherwise every other live series with
    /// exactly the needle's point count, in slot order.
    pub fn correlation_candidates(&self, needle_key: &str, start: u64, end: u64) -> (r: Vec<
        (String, Vec<DataPoint>),
    >)
        requires
            self.wf(),
        ensures
            self.lookup(needle_key@) is None ==> r@.len() == 0,
            ({
                match self.lookup(needle_key@) {
                    None => r@.len() == 0,
                    Some(s) => {
                        let n = s.query_spec(start, end).len();
                        if n == 0 {
                            r@.len() == 0
                        } else {
                            r@.map_values(|c: (String, Vec<DataPoint>)| (c.0@, c.1@))
                                == candidates_spec(
                                live_series(self.map_spec().slots_seq()),
                                needle_key@,
                                start,
                                end,
                                n,
                            )
                        }
                    },
                }
            }),
    {
        let needle_len: usize;
        match self.tsmap.get(needle_key) {
            None => {
                return Vec::new();
            },
            Some(series) => {
                let pts = series.query(start, end);
                needle_len = pts.len();
            },
        }
        if needle_len == 0 {
            return Vec::new();
        }
        let ghost n = needle_len as nat;
        let ghost live = live_series(self.map_spec().slots_seq());
        let ghost cview = |c: (String, Vec<DataPoint>)| (c.0@, c.1@);
        let owned_needle = needle_key.to_owned();
        let list = self.tsmap.scan();
        let mut out: Vec<(String, Vec<DataPoint>)> = Vec::new();
        let mut i: usize = 0;
        while i < list.len()
            invariant
                i <= list@.len(),
                list@.len() == live.len(),
                forall|k: int| 0 <= k < list@.len() ==> *(#[trigger] list@[k]) == live[k],
                forall|k: int| 0 <= k < list@.len() ==> (#[trigger] list@[k]).wf(),
                owned_needle@ == needle_key@,
                n == needle_len as nat,
                cview == (|c: (String, Vec<DataPoint>)| (c.0@, c.1@)),
                out@.map_values(cview) == candidates_spec(
                    live.take(i as int),
                    needle_key@,
                    start,
                    end,
                    n,
                ),
            decreases list@.len() - i,
        {
            let series = list[i];
            proof {
                assert(live.take(i + 1).drop_last() =~= live.take(i as int));
                assert(live.take(i + 1).last() == live[i as int]);
            }
            let key = series.key_clone();
            if !(key == owned_needle) {
                let data = series.query(start, end);
                if data.len() == needle_len {
                    proof {
                        assert(out@.push((key, data)).map_values(cview) =~= out@.map_values(
                            cview,
                        ).push((key@, data@)));
                        assert((candidates_spec(live.take(i as int), needle_key@, start, end, n)
                            + seq![(live[i as int].key_spec(), live[i as int].query_spec(
                            start,
                            end,
                        ))]) =~= out@.map_values(cview).push((key@, data@)));
                    }
                    out.push((key, data));
                } else {
                    proof {
                        assert(candidates_spec(live.take(i as int), needle_key@, start, end, n)
                            + Seq::<(Seq<char>, Seq<DataPoint>)>::empty() =~= candidates_spec(
                            live.take(i as int),
                            needle_key@,
                            start,
                            end,
                            n,
                        ));
                    }
                }
            } else {
                proof {
                    assert(candidates_spec(live.take(i as int), needle_key@, start, end, n)
                        + Seq::<(Seq<char>, Seq<DataPoint>)>::empty() =~= candidates_spec(
                        live.take(i as int),
                        needle_key@,
                        start,
                        end,
                        n,
                    ));
                }
            }
            i = i + 1;
        }
        proof {
            assert(live.take(live.len() as int) =~= live);
        }
        out
    }
}

} // verus!
