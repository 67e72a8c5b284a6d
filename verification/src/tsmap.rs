//! The series index: a dense slot array for scans, a key-to-slot table for
//! lookups, and a free list so tombstoned slots are reused instead of
//! compacted. Deleting never shrinks the slot array.

use vstd::prelude::*;
use vstd::pervasive::VecAdditionalExecFns;
use crate::series::TimeSeries;
use crate::block::BLOCK_DURATION;

verus! {

/// The slot the key-to-slot table maps `key` to: at most one entry matches,
/// since keys are unique.
pub open spec fn slot_of(entries: Seq<(String, usize)>, key: Seq<char>) -> Option<int>
    decreases entries.len(),
{
    if entries.len() == 0 {
        None
    } else if entries[0].0@ == key {
        Some(entries[0].1 as int)
    } else {
        slot_of(entries.drop_first(), key)
    }
}

/// The position of `key`'s entry in the table; meaningful only when present.
pub open spec fn entry_index_of(entries: Seq<(String, usize)>, key: Seq<char>) -> int
    decreases entries.len(),
{
    if entries.len() == 0 {
        0
    } else if entries[0].0@ == key {
        0
    } else {
        1 + entry_index_of(entries.drop_first(), key)
    }
}

/// A successful lookup points at a real entry for that key.
pub proof fn lemma_slot_of_found(entries: Seq<(String, usize)>, key: Seq<char>)
    requires
        slot_of(entries, key) is Some,
    ensures
        0 <= entry_index_of(entries, key) < entries.len(),
        entries[entry_index_of(entries, key)].0@ == key,
        entries[entry_index_of(entries, key)].1 as int == slot_of(entries, key)->Some_0,
    decreases entries.len(),
{
    if entries[0].0@ != key {
        lemma_slot_of_found(entries.drop_first(), key);
    }
}

/// Appending an entry for another key changes no existing lookup; appending
/// one for a missing key makes its slot found.
pub proof fn lemma_slot_of_push(entries: Seq<(String, usize)>, e: (String, usize), key: Seq<char>)
    ensures
        e.0@ != key ==> slot_of(entries.push(e), key) == slot_of(entries, key),
        e.0@ == key && slot_of(entries, key) is None ==> slot_of(entries.push(e), key) == Some(
            e.1 as int,
        ),
    decreases entries.len(),
{
    if entries.len() == 0 {
        assert(entries.push(e)[0] == e);
        assert(entries.push(e).drop_first() =~= Seq::<(String, usize)>::empty());
        assert(slot_of(entries, key) is None);
        assert(slot_of(entries.push(e).drop_first(), key) is None);
        if e.0@ != key {
            assert(slot_of(entries.push(e), key) is None);
        }
    } else {
        assert(entries.push(e)[0] == entries[0]);
        assert(entries.push(e).drop_first() =~= entries.drop_first().push(e));
        lemma_slot_of_push(entries.drop_first(), e, key);
    }
}

/// Removing `key`'s entry (keys unique) leaves no entry for it and changes
/// no other key's lookup.
pub proof fn lemma_slot_of_remove(entries: Seq<(String, usize)>, key: Seq<char>, k2: Seq<char>)
    requires
        slot_of(entries, key) is Some,
        forall|a: int, b: int|
            0 <= a < b < entries.len() ==> (#[trigger] entries[a]).0@ != (#[trigger] entries[b]).0@,
    ensures
        slot_of(entries.remove(entry_index_of(entries, key)), key) is None,
        k2 != key ==> slot_of(entries.remove(entry_index_of(entries, key)), k2) == slot_of(
            entries,
            k2,
        ),
    decreases entries.len(),
{
    lemma_slot_of_found(entries, key);
    let j = entry_index_of(entries, key);
    if entries[0].0@ == key {
        assert(entries.remove(0) =~= entries.drop_first());
        assert forall|a: int| 0 <= a < entries.drop_first().len() implies (#[trigger] entries
            .drop_first()[a]).0@ != key by {
            assert(entries.drop_first()[a] == entries[a + 1]);
        }
        lemma_slot_of_none_when_absent(entries.drop_first(), key);
    } else {
        let rest = entries.drop_first();
        assert forall|a: int, b: int| 0 <= a < b < rest.len() implies (#[trigger] rest[a]).0@ != (
        #[trigger] rest[b]).0@ by {
            assert(rest[a] == entries[a + 1]);
            assert(rest[b] == entries[b + 1]);
        }
        lemma_slot_of_remove(rest, key, k2);
        assert(entries.remove(j)[0] == entries[0]);
        assert(entries.remove(j).drop_first() =~= rest.remove(j - 1));
    }
}

/// If no entry carries `key`, no lookup for it succeeds.
proof fn lemma_slot_of_none_when_absent(entries: Seq<(String, usize)>, key: Seq<char>)
    requires
        forall|a: int| 0 <= a < entries.len() ==> (#[trigger] entries[a]).0@ != key,
    ensures
        slot_of(entries, key) is None,
    decreases entries.len(),
{
    if entries.len() > 0 {
        assert forall|a: int| 0 <= a < entries.drop_first().len() implies (#[trigger] entries
            .drop_first()[a]).0@ != key by {
            assert(entries.drop_first()[a] == entries[a + 1]);
        }
        lemma_slot_of_none_when_absent(entries.drop_first(), key);
    }
}

/// The live series in slot order, as a scan visits them.
pub open spec fn live_series(slots: Seq<Option<TimeSeries>>) -> Seq<TimeSeries>
    decreases slots.len(),
{
    if slots.len() == 0 {
        Seq::empty()
    } else {
        live_series(slots.drop_last()) + (match slots.last() {
            Some(s) => seq![s],
            None => Seq::empty(),
        })
    }
}

/// Maps keys to live series: a slot array scanned in order, a key-to-slot
/// table, and a free list of tombstoned slots awaiting reuse.
pub struct TimeSeriesMap {
    series_vector: Vec<Option<TimeSeries>>,
    key_to_index: Vec<(String, usize)>,
    free_indices: Vec<usize>,
}

impl TimeSeriesMap {
    pub closed spec fn slots_seq(self) -> Seq<Option<TimeSeries>> {
        self.series_vector@
    }

    pub closed spec fn entries_seq(self) -> Seq<(String, usize)> {
        self.key_to_index@
    }

    pub closed spec fn free_seq(self) -> Seq<usize> {
        self.free_indices@
    }

    /// The series stored for `key`, if any.
    pub open spec fn lookup(self, key: Seq<char>) -> Option<TimeSeries> {
        match slot_of(self.entries_seq(), key) {
            None => None,
            Some(i) => if 0 <= i < self.slots_seq().len() && self.slots_seq()[i] is Some {
                Some(self.slots_seq()[i]->Some_0)
            } else {
                None
            },
        }
    }

    /// Every table entry points at a live slot carrying its key; keys and
    /// slots in the table are unique; free slots are exactly the empty ones,
    /// without duplicates; every live series is internally consistent.
    pub open spec fn wf(self) -> bool {
        &&& forall|j: int|
            0 <= j < self.entries_seq().len() ==> {
                let e = #[trigger] self.entries_seq()[j];
                &&& (e.1 as int) < self.slots_seq().len()
                &&& self.slots_seq()[e.1 as int] is Some
                &&& self.slots_seq()[e.1 as int]->Some_0.key_spec() == e.0@
            }
        &&& forall|a: int, b: int|
            0 <= a < b < self.entries_seq().len() ==> (#[trigger] self.entries_seq()[a]).0@ != (
            #[trigger] self.entries_seq()[b]).0@
        &&& forall|a: int, b: int|
            0 <= a < b < self.entries_seq().len() ==> (#[trigger] self.entries_seq()[a]).1 != (
            #[trigger] self.entries_seq()[b]).1
        &&& forall|i: int|
            0 <= i < self.slots_seq().len() && (#[trigger] self.slots_seq()[i]) is Some ==> self
                .slots_seq()[i]->Some_0.wf()
        &&& forall|j: int|
            0 <= j < self.free_seq().len() ==> {
                let f = #[trigger] self.free_seq()[j];
                (f as int) < self.slots_seq().len() && self.slots_seq()[f as int] is None
            }
        &&& forall|a: int, b: int|
            0 <= a < b < self.free_seq().len() ==> (#[trigger] self.free_seq()[a]) != (
            #[trigger] self.free_seq()[b])
    }

    pub fn new() -> (r: TimeSeriesMap)
        ensures
            r.wf(),
            r.slots_seq() == Seq::<Option<TimeSeries>>::empty(),
            r.entries_seq() == Seq::<(String, usize)>::empty(),
            r.free_seq() == Seq::<usize>::empty(),
    {
        TimeSeriesMap {
            series_vector: Vec::new(),
            key_to_index: Vec::new(),
            free_indices: Vec::new(),
        }
    }

    /// Find the position of `key`'s table entry, if present.
    fn find_entry(&self, key: &String) -> (r: Option<usize>)
        ensures
            ({
                match slot_of(self.entries_seq(), key@) {
                    None => r is None,
                    Some(i) => r matches Some(j) && j == entry_index_of(self.entries_seq(), key@)
                        && j < self.entries_seq().len() && self.entries_seq()[j as int].0@ == key@
                        && self.entries_seq()[j as int].1 as int == i,
                }
            }),
    {
        let ghost entries = self.key_to_index@;
        proof {
            assert(entries.skip(0) =~= entries);
        }
        let mut j: usize = 0;
        while j < self.key_to_index.len()
            invariant
                j <= entries.len(),
                entries == self.key_to_index@,
                slot_of(entries, key@) == slot_of(entries.skip(j as int), key@),
                entry_index_of(entries, key@) == j + entry_index_of(
                    entries.skip(j as int),
                    key@,
                ),
                forall|a: int| 0 <= a < j ==> (#[trigger] entries[a]).0@ != key@,
            decreases entries.len() - j,
        {
            let entry = &self.key_to_index[j];
            proof {
                assert(entries.skip(j as int)[0] == entries[j as int]);
                assert(entries.skip(j as int).drop_first() =~= entries.skip(j + 1));
            }
            if entry.0 == *key {
                return Some(j);
            }
            j = j + 1;
        }
        proof {
            assert(entries.skip(entries.len() as int).len() == 0);
        }
        None
    }

    /// Insert a point: an existing key's series takes it directly; a new key
    /// gets a fresh series aligned to the timestamp, placed into a reused
    /// free slot if one exists, else appended as a new slot.
    pub fn insert(&mut self, key: String, timestamp: u64, value_bits: u64)
        requires
            old(self).wf(),
            timestamp + BLOCK_DURATION <= u64::MAX,
        ensures
            final(self).wf(),
            ({
                let p = crate::block::DataPoint { timestamp, value_bits };
                match old(self).lookup(key@) {
                    Some(s) => final(self).lookup(key@) matches Some(s2) && s2.key_spec() == key@
                        && s2.series_points() == s.series_points().push(p),
                    None => final(self).lookup(key@) matches Some(s2) && s2.key_spec() == key@
                        && s2.series_points() == seq![p] && s2.open_spec().start_spec() == (
                    timestamp / BLOCK_DURATION) * BLOCK_DURATION,
                }
            }),
            forall|k2: Seq<char>| k2 != key@ ==> final(self).lookup(k2) == old(self).lookup(k2),
            old(self).lookup(key@) is Some ==> final(self).slots_seq().len() == old(self).slots_seq().len() && final(self).free_seq() == old(self).free_seq(),
            old(self).lookup(key@) is None && old(self).free_seq().len() > 0 ==> final(self).slots_seq().len() == old(self).slots_seq().len() && final(self).free_seq() == old(self).free_seq().drop_last() && final(self).entries_seq() == old(self).entries_seq().push(
                (key, old(self).free_seq().last()),
            ),
            old(self).lookup(key@) is None && old(self).free_seq().len() == 0 ==> final(self).slots_seq().len() == old(self).slots_seq().len() + 1 && final(self).entries_seq()
                == old(self).entries_seq().push((key, old(self).slots_seq().len() as usize)),
    {
        let found = self.find_entry(&key);
        match found {
            Some(j) => {
                proof {
                    lemma_slot_of_found(self.entries_seq(), key@);
                }
                let idx = self.key_to_index[j].1;
                let ghost i = idx as int;
                let mut slot: Option<TimeSeries> = None;
                self.series_vector.set_and_swap(idx, &mut slot);
                match slot {
                    Some(mut series) => {
                        series.insert(timestamp, value_bits);
                        self.series_vector.set(idx, Some(series));
                        proof {
                            assert(self.slots_seq() =~= old(self).slots_seq().update(
                                i,
                                self.slots_seq()[i],
                            ));
                            assert forall|k2: Seq<char>| k2 != key@ implies final(self).lookup(k2)
                                == old(self).lookup(k2) by {
                                if slot_of(self.entries_seq(), k2) is Some {
                                    lemma_slot_of_found(self.entries_seq(), k2);
                                    let a = entry_index_of(self.entries_seq(), k2);
                                    let b = entry_index_of(self.entries_seq(), key@);
                                    assert(self.entries_seq()[a].0@ == k2);
                                    assert(self.entries_seq()[b].0@ == key@);
                                    assert(a != b);
                                    assert(self.entries_seq()[a].1 != self.entries_seq()[b].1);
                                }
                            }
                        }
                    },
                    None => {
                        // The table invariant says this slot holds a series.
                        proof {
                            assert(false);
                        }
                        self.series_vector.set(idx, None);
                    },
                }
            },
            None => {
                let mut series = TimeSeries::new(key.clone(), timestamp);
                series.insert(timestamp, value_bits);
                proof {
                    assert(series.series_points() =~= seq![
                        crate::block::DataPoint { timestamp, value_bits },
                    ]);
                }
                let index: usize;
                match self.free_indices.pop() {
                    Some(free_idx) => {
                        self.series_vector.set(free_idx, Some(series));
                        index = free_idx;
                        proof {
                            assert(old(self).free_seq().drop_last() =~= self.free_seq());
                        }
                    },
                    None => {
                        index = self.series_vector.len();
                        self.series_vector.push(Some(series));
                    },
                }
                self.key_to_index.push((key, index));
                proof {
                    let entries0 = old(self).entries_seq();
                    let e = self.entries_seq().last();
                    assert(self.entries_seq() =~= entries0.push(e));
                    lemma_slot_of_push(entries0, e, e.0@);
                    assert forall|k2: Seq<char>| k2 != e.0@ implies final(self).lookup(k2) == old(self).lookup(k2) by {
                        lemma_slot_of_push(entries0, e, k2);
                        if slot_of(entries0, k2) is Some {
                            lemma_slot_of_found(entries0, k2);
                        }
                    }
                    assert forall|a: int, b: int|
                        0 <= a < b < self.entries_seq().len() implies (#[trigger] self
                        .entries_seq()[a]).0@ != (#[trigger] self.entries_seq()[b]).0@ by {
                        if b == self.entries_seq().len() - 1 {
                            if self.entries_seq()[a].0@ == e.0@ {
                                lemma_slot_of_some_when_present(entries0, e.0@, a);
                            }
                        }
                    }
                }
            },
        }
    }

    /// Look a series up by key; `None` exactly for unknown keys.
    pub fn get(&self, key: &str) -> (r: Option<&TimeSeries>)
        requires
            self.wf(),
        ensures
            ({
                match self.lookup(key@) {
                    None => r is None,
                    Some(s) => r matches Some(rs) && *rs == s,
                }
            }),
    {
        let owned = key.to_owned();
        let found = self.find_entry(&owned);
        match found {
            Some(j) => {
                proof {
                    lemma_slot_of_found(self.entries_seq(), key@);
                }
                let idx = self.key_to_index[j].1;
                match &self.series_vector[idx] {
                    Some(series) => Some(series),
                    None => None,
                }
            },
            None => None,
        }
    }

    /// Tombstone a key: empty its slot, queue the slot for reuse, drop the
    /// table entry. Deleting an absent key changes nothing.
    pub fn delete(&mut self, key: &str)
        requires
            old(self).wf(),
        ensures
            final(self).wf(),
            final(self).lookup(key@) is None,
            forall|k2: Seq<char>| k2 != key@ ==> final(self).lookup(k2) == old(self).lookup(k2),
            old(self).lookup(key@) is None ==> *final(self) == *old(self),
            ({
                match slot_of(old(self).entries_seq(), key@) {
                    None => final(self).slots_seq() == old(self).slots_seq(),
                    Some(i) => final(self).slots_seq() == old(self).slots_seq().update(i, None)
                        && final(self).free_seq() == old(self).free_seq().push(i as usize)
                        && final(self).entries_seq() == old(self).entries_seq().remove(
                        entry_index_of(old(self).entries_seq(), key@),
                    ),
                }
            }),
    {
        let owned = key.to_owned();
        let found = self.find_entry(&owned);
        match found {
            Some(j) => {
                proof {
                    lemma_slot_of_found(self.entries_seq(), key@);
                }
                let idx = self.key_to_index[j].1;
                self.series_vector.set(idx, None);
                self.free_indices.push(idx);
                let _ = self.key_to_index.remove(j);
                proof {
                    let entries0 = old(self).entries_seq();
                    let j0 = entry_index_of(entries0, key@);
                    assert(self.entries_seq() =~= entries0.remove(j0));
                    entries0.remove_ensures(j0);
                    assert forall|k2: Seq<char>| true implies #[trigger] slot_of(
                        self.entries_seq(),
                        k2,
                    ) == slot_of(entries0.remove(j0), k2) by {}
                    lemma_slot_of_remove(entries0, key@, key@);
                    assert forall|k2: Seq<char>| k2 != key@ implies final(self).lookup(k2) == old(self).lookup(k2) by {
                        lemma_slot_of_remove(entries0, key@, k2);
                        if slot_of(entries0, k2) is Some {
                            lemma_slot_of_found(entries0, k2);
                            let a = entry_index_of(entries0, k2);
                            assert(entries0[a].0@ == k2);
                            assert(entries0[j0].0@ == key@);
                            assert(a != j0);
                            assert(entries0[a].1 != entries0[j0].1);
                        }
                    }
                }
            },
            None => {},
        }
    }

    /// Visit every live series in slot order. Order follows slot indices, so
    /// it changes once slots have been tombstoned and reused.
    pub fn scan(&self) -> (r: Vec<&TimeSeries>)
        requires
            self.wf(),
        ensures
            r@.len() == live_series(self.slots_seq()).len(),
            forall|k: int|
                0 <= k < r@.len() ==> *(#[trigger] r@[k]) == live_series(self.slots_seq())[k],
            forall|k: int| 0 <= k < r@.len() ==> (#[trigger] r@[k]).wf(),
    {
        let mut out: Vec<&TimeSeries> = Vec::new();
        let mut i: usize = 0;
        while i < self.series_vector.len()
            invariant
                i <= self.slots_seq().len(),
                self.wf(),
                out@.len() == live_series(self.slots_seq().take(i as int)).len(),
                forall|k: int|
                    0 <= k < out@.len() ==> *(#[trigger] out@[k]) == live_series(
                        self.slots_seq().take(i as int),
                    )[k],
                forall|k: int| 0 <= k < out@.len() ==> (#[trigger] out@[k]).wf(),
            decreases self.slots_seq().len() - i,
        {
            proof {
                assert(self.slots_seq().take(i + 1).drop_last() =~= self.slots_seq().take(
                    i as int,
                ));
            }
            match &self.series_vector[i] {
                Some(series) => {
                    out.push(series);
                },
                None => {},
            }
            i = i + 1;
        }
        proof {
            assert(self.slots_seq().take(self.slots_seq().len() as int) =~= self.slots_seq());
        }
        out
    }
}

/// A key present somewhere in the table is found by lookup.
proof fn lemma_slot_of_some_when_present(entries: Seq<(String, usize)>, key: Seq<char>, a: int)
    requires
        0 <= a < entries.len(),
        entries[a].0@ == key,
    ensures
        slot_of(entries, key) is Some,
    decreases entries.len(),
{
    if entries[0].0@ != key {
        assert(entries.drop_first()[a - 1] == entries[a]);
        lemma_slot_of_some_when_present(entries.drop_first(), key, a - 1);
    }
}

} // verus!
