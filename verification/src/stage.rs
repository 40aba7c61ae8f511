//! One transformation stage: a table of disjoint source spans, each shifting
//! the values it matches by a fixed offset.  Values outside every span pass
//! through unchanged.

use vstd::prelude::*;
use vstd::set_lib::set_int_range;
use crate::Error;

verus! {

/// One entry of a stage table: values in `[source_start, source_end)` are
/// moved to start at `dest_start`.
#[derive(Debug, Clone, Copy, PartialEq, Eq, Structural)]
pub struct StageEntry {
    pub source_start: u64,
    pub source_end: u64,
    pub dest_start: u64,
}

impl StageEntry {
    /// Non-empty source span whose image stays inside the `u64` domain.
    pub open spec fn wf(self) -> bool {
        self.source_start < self.source_end && self.dest_start + (self.source_end
            - self.source_start) <= u64::MAX
    }

    /// The entry matches the value.
    pub open spec fn covers(self, v: int) -> bool {
        self.source_start <= v < self.source_end
    }

    /// The fixed offset the entry adds to every value it matches.
    pub open spec fn delta(self) -> int {
        self.dest_start - self.source_start
    }

    /// The source spans of the two entries do not intersect.
    pub open spec fn disjoint_from(self, other: StageEntry) -> bool {
        self.source_end <= other.source_start || other.source_end <= self.source_start
    }
}

/// An input triple `(dest_start, source_start, length)`.
pub open spec fn triple_valid(t: (u64, u64, u64)) -> bool {
    t.2 > 0 && t.1 + t.2 <= u64::MAX && t.0 + t.2 <= u64::MAX
}

/// Every triple of the sequence is valid.
pub open spec fn triples_valid(ts: Seq<(u64, u64, u64)>) -> bool {
    forall|i: int| 0 <= i < ts.len() ==> triple_valid(#[trigger] ts[i])
}

/// The triple matches the value.
pub open spec fn triple_covers(t: (u64, u64, u64), v: int) -> bool {
    t.1 <= v < t.1 + t.2
}

/// The source spans of the two triples intersect.
pub open spec fn triples_overlap(a: (u64, u64, u64), b: (u64, u64, u64)) -> bool {
    a.1 < b.1 + b.2 && b.1 < a.1 + a.2
}

/// Some two triples of the sequence have intersecting source spans.
pub open spec fn has_overlap(ts: Seq<(u64, u64, u64)>) -> bool {
    exists|i: int, j: int|
        0 <= i < j < ts.len() && triples_overlap(#[trigger] ts[i], #[trigger] ts[j])
}

/// The entry a valid triple turns into.
pub open spec fn entry_of(t: (u64, u64, u64)) -> StageEntry {
    StageEntry { source_start: t.1, source_end: (t.1 + t.2) as u64, dest_start: t.0 }
}

/// Where the triples send a value: shifted by the triple that matches it, or
/// left alone when none does.
pub open spec fn triples_map_value(ts: Seq<(u64, u64, u64)>, v: int) -> int {
    if exists|i: int| 0 <= i < ts.len() && triple_covers(#[trigger] ts[i], v) {
        let i = choose|i: int| 0 <= i < ts.len() && triple_covers(#[trigger] ts[i], v);
        v + ts[i].0 - ts[i].1
    } else {
        v
    }
}

/// The table of one transformation stage: well-formed entries, sorted by
/// source span and pairwise disjoint in source space.
#[derive(Debug)]
pub struct StageTable {
    pub entries: Vec<StageEntry>,
}

impl StageTable {
    /// Well-formed: every entry valid, spans sorted and pairwise disjoint.
    pub open spec fn wf(self) -> bool {
        (forall|i: int| 0 <= i < self.entries@.len() ==> (#[trigger] self.entries@[i]).wf())
            && (forall|i: int, j: int|
            0 <= i < j < self.entries@.len() ==> (#[trigger] self.entries@[i]).source_end <= (
            #[trigger] self.entries@[j]).source_start)
    }

    /// Where the stage sends a value: shifted by the entry that matches it,
    /// or left alone when none does.
    pub open spec fn map_value(self, v: int) -> int {
        if exists|i: int|
            0 <= i < self.entries@.len() && (#[trigger] self.entries@[i]).covers(v) {
            let i = choose|i: int|
                0 <= i < self.entries@.len() && (#[trigger] self.entries@[i]).covers(v);
            v + self.entries@[i].delta()
        } else {
            v
        }
    }

    /// The image of a set of values under the stage's map.
    pub open spec fn image(self, s: Set<int>) -> Set<int> {
        Set::new(|w: int| exists|v: int| s.contains(v) && w == #[trigger] self.map_value(v))
    }

    /// Nothing maps into the image of the empty set.
    pub proof fn lemma_image_empty(self)
        ensures
            self.image(Set::empty()) == Set::<int>::empty(),
    {
        assert(self.image(Set::empty()) =~= Set::<int>::empty()) by {
            assert forall|w: int| !self.image(Set::<int>::empty()).contains(w) by {
                if self.image(Set::<int>::empty()).contains(w) {
                    let v = choose|v: int|
                        Set::<int>::empty().contains(v) && w == #[trigger] self.map_value(v);
                }
            }
        }
    }

    /// The image of a union is the union of the images.
    pub proof fn lemma_image_union(self, a: Set<int>, b: Set<int>)
        ensures
            self.image(a.union(b)) == self.image(a).union(self.image(b)),
    {
        assert(self.image(a.union(b)) =~= self.image(a).union(self.image(b))) by {
            assert forall|w: int| self.image(a.union(b)).contains(w)
                implies self.image(a).union(self.image(b)).contains(w) by {
                let v = choose|v: int|
                    a.union(b).contains(v) && w == #[trigger] self.map_value(v);
                if a.contains(v) {
                    assert(a.contains(v) && w == self.map_value(v));
                } else {
                    assert(b.contains(v) && w == self.map_value(v));
                }
            }
            assert forall|w: int| self.image(a).union(self.image(b)).contains(w)
                implies self.image(a.union(b)).contains(w) by {
                if self.image(a).contains(w) {
                    let v = choose|v: int| a.contains(v) && w == #[trigger] self.map_value(v);
                    assert(a.union(b).contains(v) && w == self.map_value(v));
                } else {
                    let v = choose|v: int| b.contains(v) && w == #[trigger] self.map_value(v);
                    assert(a.union(b).contains(v) && w == self.map_value(v));
                }
            }
        }
    }

    /// A span of values the stage leaves alone has itself as its image.
    pub proof fn lemma_image_identity_range(self, lo: int, hi: int)
        requires
            forall|v: int| lo <= v < hi ==> #[trigger] self.map_value(v) == v,
        ensures
            self.image(set_int_range(lo, hi)) == set_int_range(lo, hi),
    {
        assert(self.image(set_int_range(lo, hi)) =~= set_int_range(lo, hi)) by {
            assert forall|w: int| self.image(set_int_range(lo, hi)).contains(w)
                implies set_int_range(lo, hi).contains(w) by {
                let v = choose|v: int|
                    set_int_range(lo, hi).contains(v) && w == #[trigger] self.map_value(v);
            }
            assert forall|w: int| set_int_range(lo, hi).contains(w)
                implies self.image(set_int_range(lo, hi)).contains(w) by {
                assert(set_int_range(lo, hi).contains(w) && w == self.map_value(w));
            }
        }
    }

    /// A span of values the stage shifts by a fixed offset has the shifted
    /// span as its image.
    pub proof fn lemma_image_shift_range(self, lo: int, hi: int, d: int)
        requires
            forall|v: int| lo <= v < hi ==> #[trigger] self.map_value(v) == v + d,
        ensures
            self.image(set_int_range(lo, hi)) == set_int_range(lo + d, hi + d),
    {
        assert(self.image(set_int_range(lo, hi)) =~= set_int_range(lo + d, hi + d)) by {
            assert forall|w: int| self.image(set_int_range(lo, hi)).contains(w)
                implies set_int_range(lo + d, hi + d).contains(w) by {
                let v = choose|v: int|
                    set_int_range(lo, hi).contains(v) && w == #[trigger] self.map_value(v);
            }
            assert forall|w: int| set_int_range(lo + d, hi + d).contains(w)
                implies self.image(set_int_range(lo, hi)).contains(w) by {
                assert(set_int_range(lo, hi).contains(w - d) && w == self.map_value(w - d));
            }
        }
    }

    /// In a well-formed table the entry that matches a value is unique, so
    /// `map_value` shifts by exactly that entry's offset.
    pub proof fn lemma_map_value_at(self, v: int, i: int)
        requires
            self.wf(),
            0 <= i < self.entries@.len(),
            self.entries@[i].covers(v),
        ensures
            self.map_value(v) == v + self.entries@[i].delta(),
    {
        let j = choose|j: int|
            0 <= j < self.entries@.len() && (#[trigger] self.entries@[j]).covers(v);
        if i < j {
            assert(self.entries@[i].source_end <= self.entries@[j].source_start);
        } else if j < i {
            assert(self.entries@[j].source_end <= self.entries@[i].source_start);
        }
    }

    /// A value no entry matches passes through unchanged.
    pub proof fn lemma_map_value_identity(self, v: int)
        requires
            forall|i: int|
                0 <= i < self.entries@.len() ==> !(#[trigger] self.entries@[i]).covers(v),
        ensures
            self.map_value(v) == v,
    {
    }

    /// The entries, for callers that want to look at the representation.
    pub fn entries(&self) -> (r: &Vec<StageEntry>)
        ensures
            r@ == self.entries@,
    {
        &self.entries
    }

    /// Builds the table from `(dest_start, source_start, length)` triples.
    /// Rejects zero-length or overflowing triples, then triples whose source
    /// spans intersect; otherwise the table realizes exactly the partial map
    /// the triples describe.
    pub fn from_entries(ts: &Vec<(u64, u64, u64)>) -> (r: Result<StageTable, Error>)
        ensures
            match r {
                Ok(t) => triples_valid(ts@) && !has_overlap(ts@) && t.wf() && forall|v: int|
                    #[trigger] t.map_value(v) == triples_map_value(ts@, v),
                Err(e) => (e == Error::InvalidRange && !triples_valid(ts@)) || (e
                    == Error::OverlappingEntries && triples_valid(ts@) && has_overlap(ts@)),
            },
    {
        // Validity of each triple.
        let mut k: usize = 0;
        while k < ts.len()
            invariant
                0 <= k <= ts@.len(),
                forall|i: int| 0 <= i < k ==> triple_valid(#[trigger] ts@[i]),
            decreases ts@.len() - k,
        {
            let (d, s, l) = ts[k];
            if l == 0 || l > u64::MAX - s || l > u64::MAX - d {
                return Err(Error::InvalidRange);
            }
            k += 1;
        }
        // Pairwise disjointness of the source spans.
        let mut i: usize = 0;
        while i < ts.len()
            invariant
                0 <= i <= ts@.len(),
                triples_valid(ts@),
                forall|a: int, b: int|
                    0 <= a < b < ts@.len() && a < i ==> !triples_overlap(
                        #[trigger] ts@[a],
                        #[trigger] ts@[b],
                    ),
            decreases ts@.len() - i,
        {
            let mut j: usize = i + 1;
            while j < ts.len()
                invariant
                    0 <= i < j,
                    i < ts@.len(),
                    j <= ts@.len(),
                    triples_valid(ts@),
                    forall|b: int|
                        i < b < j ==> !triples_overlap(#[trigger] ts@[i as int], #[trigger] ts@[b]),
                decreases ts@.len() - j,
            {
                let a = ts[i];
                let b = ts[j];
                if a.1 < b.1 + b.2 && b.1 < a.1 + a.2 {
                    return Err(Error::OverlappingEntries);
                }
                j += 1;
            }
            i += 1;
        }
        // Build the entry list, sorted by source span.
        let mut entries: Vec<StageEntry> = Vec::new();
        let mut k: usize = 0;
        while k < ts.len()
            invariant
                0 <= k <= ts@.len(),
                triples_valid(ts@),
                !has_overlap(ts@),
                forall|x: StageEntry|
                    entries@.contains(x) <==> exists|j: int|
                        0 <= j < k && x == entry_of(#[trigger] ts@[j]),
                forall|i: int| 0 <= i < entries@.len() ==> (#[trigger] entries@[i]).wf(),
                forall|i: int, j: int|
                    0 <= i < j < entries@.len() ==> (#[trigger] entries@[i]).source_end <= (
                    #[trigger] entries@[j]).source_start,
            decreases ts@.len() - k,
        {
            let (d, s, l) = ts[k];
            let e = StageEntry { source_start: s, source_end: s + l, dest_start: d };
            proof {
                assert(e == entry_of(ts@[k as int]));
                assert forall|x: StageEntry| entries@.contains(x) implies x.disjoint_from(e) by {
                    let j = choose|j: int| 0 <= j < k && x == entry_of(#[trigger] ts@[j]);
                    assert(!triples_overlap(ts@[j], ts@[k as int]) && !triples_overlap(
                        ts@[k as int],
                        ts@[j],
                    ));
                }
            }
            let ghost pre = entries@;
            Self::insert_entry(&mut entries, e);
            proof {
                assert forall|x: StageEntry| entries@.contains(x) implies exists|j: int|
                    0 <= j < k + 1 && x == entry_of(#[trigger] ts@[j]) by {
                    if pre.contains(x) {
                        let j = choose|j: int| 0 <= j < k && x == entry_of(#[trigger] ts@[j]);
                        assert(x == entry_of(ts@[j]));
                    } else {
                        assert(x == entry_of(ts@[k as int]));
                    }
                }
                assert forall|j: int| 0 <= j < k + 1 implies entries@.contains(
                    entry_of(#[trigger] ts@[j]),
                ) by {
                    if j < k {
                        assert(pre.contains(entry_of(ts@[j])));
                    }
                }
                assert forall|x: StageEntry|
                    (exists|j: int| 0 <= j < k + 1 && x == entry_of(#[trigger] ts@[j]))
                    implies entries@.contains(x) by {
                    let j = choose|j: int| 0 <= j < k + 1 && x == entry_of(#[trigger] ts@[j]);
                    assert(entries@.contains(entry_of(ts@[j])));
                }
            }
            k += 1;
        }
        let table = StageTable { entries };
        proof {
            Self::lemma_table_matches_triples(table, ts@);
        }
        Ok(table)
    }

    /// Inserts a well-formed entry, disjoint from every present span, at its
    /// place in the sorted order.
    fn insert_entry(entries: &mut Vec<StageEntry>, e: StageEntry)
        requires
            forall|i: int| 0 <= i < old(entries)@.len() ==> (#[trigger] old(entries)@[i]).wf(),
            forall|i: int, j: int|
                0 <= i < j < old(entries)@.len() ==> (#[trigger] old(entries)@[i]).source_end <= (
                #[trigger] old(entries)@[j]).source_start,
            e.wf(),
            forall|x: StageEntry| old(entries)@.contains(x) ==> x.disjoint_from(e),
        ensures
            forall|i: int| 0 <= i < final(entries)@.len() ==> (#[trigger] final(entries)@[i]).wf(),
            forall|i: int, j: int|
                0 <= i < j < final(entries)@.len() ==> (#[trigger] final(entries)@[i]).source_end
                    <= (#[trigger] final(entries)@[j]).source_start,
            forall|x: StageEntry|
                final(entries)@.contains(x) <==> (old(entries)@.contains(x) || x == e),
    {
        let mut idx: usize = 0;
        while idx < entries.len() && entries[idx].source_start <= e.source_start
            invariant
                0 <= idx <= entries@.len(),
                entries@ == old(entries)@,
                forall|i: int|
                    0 <= i < idx ==> (#[trigger] entries@[i]).source_start <= e.source_start,
            decreases entries@.len() - idx,
        {
            idx += 1;
        }
        let ghost pre = entries@;
        proof {
            // entries at and after idx start strictly after e
            assert forall|i: int| idx <= i < pre.len() implies e.source_start < (
            #[trigger] pre[i]).source_start by {
                if idx < pre.len() {
                    assert(pre[idx as int].source_start > e.source_start);
                    if i > idx {
                        assert(pre[idx as int].source_end <= pre[i].source_start);
                        assert(pre[idx as int].wf());
                    }
                }
            }
        }
        entries.insert(idx, e);
        proof {
            pre.insert_ensures(idx as int, e);
            assert forall|a: int, b: int| 0 <= a < b < entries@.len()
                implies (#[trigger] entries@[a]).source_end <= (
            #[trigger] entries@[b]).source_start by {
                if a < idx && b > idx {
                    assert(entries@[a] == pre[a] && entries@[b] == pre[b - 1]);
                } else if b == idx {
                    assert(entries@[a] == pre[a]);
                    assert(pre.contains(pre[a]));
                    assert(pre[a].disjoint_from(e));
                    assert(pre[a].source_start <= e.source_start && pre[a].wf());
                } else if a == idx {
                    assert(entries@[b] == pre[b - 1]);
                    assert(pre.contains(pre[b - 1]));
                    assert(pre[b - 1].disjoint_from(e));
                    assert(e.source_start < pre[b - 1].source_start);
                }
            }
            assert forall|x: StageEntry| entries@.contains(x) implies (pre.contains(x) || x
                == e) by {
                let i = choose|i: int| 0 <= i < entries@.len() && entries@[i] == x;
                if i < idx {
                    assert(pre[i] == x);
                } else if i > idx {
                    assert(pre[i - 1] == x);
                }
            }
            assert forall|x: StageEntry| (pre.contains(x) || x == e) implies entries@.contains(
                x,
            ) by {
                if pre.contains(x) {
                    let i = choose|i: int| 0 <= i < pre.len() && pre[i] == x;
                    if i < idx {
                        assert(entries@[i] == x);
                    } else {
                        assert(entries@[i + 1] == x);
                    }
                } else {
                    assert(entries@[idx as int] == x);
                }
            }
        }
    }

    /// A table holding exactly the entries of valid, pairwise disjoint
    /// triples realizes the map the triples describe.
    proof fn lemma_table_matches_triples(table: StageTable, ts: Seq<(u64, u64, u64)>)
        requires
            table.wf(),
            triples_valid(ts),
            !has_overlap(ts),
            forall|x: StageEntry|
                table.entries@.contains(x) <==> exists|j: int|
                    0 <= j < ts.len() && x == entry_of(#[trigger] ts[j]),
        ensures
            forall|v: int| #[trigger] table.map_value(v) == triples_map_value(ts, v),
    {
        assert forall|v: int| #[trigger] table.map_value(v) == triples_map_value(ts, v) by {
            if exists|i: int|
                0 <= i < table.entries@.len() && (#[trigger] table.entries@[i]).covers(v) {
                let i = choose|i: int|
                    0 <= i < table.entries@.len() && (#[trigger] table.entries@[i]).covers(v);
                table.lemma_map_value_at(v, i);
                assert(table.entries@.contains(table.entries@[i]));
                let j = choose|j: int|
                    0 <= j < ts.len() && table.entries@[i] == entry_of(#[trigger] ts[j]);
                assert(triple_covers(ts[j], v));
                let j2 = choose|j2: int| 0 <= j2 < ts.len() && triple_covers(#[trigger] ts[j2], v);
                if j != j2 {
                    assert(triples_overlap(ts[j], ts[j2]) && triples_overlap(ts[j2], ts[j]));
                    assert(false);
                }
            } else {
                if exists|j2: int| 0 <= j2 < ts.len() && triple_covers(#[trigger] ts[j2], v) {
                    let j2 = choose|j2: int| 0 <= j2 < ts.len() && triple_covers(
                        #[trigger] ts[j2],
                        v,
                    );
                    assert(table.entries@.contains(entry_of(ts[j2])));
                    let i = choose|i: int|
                        0 <= i < table.entries@.len() && table.entries@[i] == entry_of(ts[j2]);
                    assert(table.entries@[i].covers(v));
                    assert(false);
                }
            }
        }
    }

    /// The first entry, in source order, whose span is not entirely below
    /// `value_start`: the one containing `value_start`, or else the nearest
    /// entry above it.  Binary search over the sorted spans.
    pub fn find_first_overlap(&self, value_start: u64) -> (r: Option<&StageEntry>)
        requires
            self.wf(),
        ensures
            match r {
                Option::None => forall|i: int|
                    0 <= i < self.entries@.len() ==> (#[trigger] self.entries@[i]).source_end
                        <= value_start,
                Option::Some(e) => exists|i: int|
                    0 <= i < self.entries@.len() && *e == self.entries@[i]
                        && self.entries@[i].source_end > value_start && forall|j: int|
                        0 <= j < i ==> (#[trigger] self.entries@[j]).source_end <= value_start,
            },
    {
        let idx = self.first_overlap_idx(value_start);
        if idx < self.entries.len() {
            Some(&self.entries[idx])
        } else {
            None
        }
    }

    /// Index of the first entry whose span is not entirely below
    /// `value_start`; the entry count when every span is.
    pub(crate) fn first_overlap_idx(&self, value_start: u64) -> (idx: usize)
        requires
            self.wf(),
        ensures
            idx <= self.entries@.len(),
            forall|j: int|
                0 <= j < idx ==> (#[trigger] self.entries@[j]).source_end <= value_start,
            idx < self.entries@.len() ==> self.entries@[idx as int].source_end > value_start,
    {
        let mut lo: usize = 0;
        let mut hi: usize = self.entries.len();
        while lo < hi
            invariant
                0 <= lo <= hi <= self.entries@.len(),
                self.wf(),
                forall|j: int|
                    0 <= j < lo ==> (#[trigger] self.entries@[j]).source_end <= value_start,
                forall|j: int|
                    hi <= j < self.entries@.len() ==> (#[trigger] self.entries@[j]).source_end
                        > value_start,
            decreases hi - lo,
        {
            let mid = lo + (hi - lo) / 2;
            if self.entries[mid].source_end > value_start {
                proof {
                    assert forall|j: int|
                        mid <= j < self.entries@.len() implies (
                    #[trigger] self.entries@[j]).source_end > value_start by {
                        if j > mid {
                            assert(self.entries@[mid as int].source_end
                                <= self.entries@[j].source_start);
                            assert(self.entries@[j].wf());
                        }
                    }
                }
                hi = mid;
            } else {
                lo = mid + 1;
            }
        }
        lo
    }
}

} // verus!
