//! Sets of disjoint half-open `u64` intervals.
//!
//! A `RangeSet` stands for a set of integer values, kept as a sorted sequence
//! of pairwise disjoint, non-empty intervals.  Its semantics is the spec-level
//! value set `to_set()`; every operation is specified against that set.

use vstd::prelude::*;
use vstd::set_lib::{lemma_int_range, lemma_set_disjoint_lens, set_int_range};
use crate::Error;
use crate::stage::StageTable;

verus! {

/// A half-open interval `[start, end)` of `u64` values.
#[derive(Debug, Clone, Copy, PartialEq, Eq, Structural)]
pub struct Interval {
    pub start: u64,
    pub end: u64,
}

impl Interval {
    /// The interval holds at least one value.
    pub open spec fn non_empty(self) -> bool {
        self.start < self.end
    }

    /// The set of values the interval stands for.
    pub open spec fn to_set(self) -> Set<int> {
        set_int_range(self.start as int, self.end as int)
    }

    /// How many values the interval holds.
    pub open spec fn length(self) -> int {
        self.end - self.start
    }
}

/// The set of values covered by at least one interval of the sequence.
pub open spec fn union_of(s: Seq<Interval>) -> Set<int> {
    Set::new(
        |v: int|
            exists|i: int| 0 <= i < s.len() && (#[trigger] s[i]).start <= v < s[i].end,
    )
}

/// Every interval of the sequence is non-empty.
pub open spec fn all_non_empty(s: Seq<Interval>) -> bool {
    forall|i: int| 0 <= i < s.len() ==> (#[trigger] s[i]).non_empty()
}

/// The intervals appear in increasing order and no two of them share a value.
pub open spec fn disjoint_sorted(s: Seq<Interval>) -> bool {
    forall|i: int, j: int|
        0 <= i < j < s.len() ==> (#[trigger] s[i]).end <= (#[trigger] s[j]).start
}

/// The intervals appear in order of non-decreasing start.
pub open spec fn sorted_by_start(s: Seq<Interval>) -> bool {
    forall|i: int, j: int|
        0 <= i < j < s.len() ==> (#[trigger] s[i]).start <= (#[trigger] s[j]).start
}

/// The total number of values held by the intervals, counted per interval.
pub open spec fn sum_lengths_of(s: Seq<Interval>) -> int
    decreases s.len(),
{
    if s.len() == 0 {
        0
    } else {
        sum_lengths_of(s.drop_last()) + s.last().length()
    }
}

/// For disjoint intervals, the per-interval lengths add up to the size of the
/// union: no value is counted twice.
pub proof fn lemma_sum_lengths_is_cardinality(s: Seq<Interval>)
    requires
        all_non_empty(s),
        disjoint_sorted(s),
    ensures
        union_of(s).finite(),
        union_of(s).len() == sum_lengths_of(s),
    decreases s.len(),
{
    if s.len() == 0 {
        assert(union_of(s) =~= Set::empty());
    } else {
        let pre = s.drop_last();
        let last = s.last();
        assert(all_non_empty(pre) && disjoint_sorted(pre)) by {
            assert(forall|i: int| 0 <= i < pre.len() ==> pre[i] == s[i]);
        }
        lemma_sum_lengths_is_cardinality(pre);
        lemma_int_range(last.start as int, last.end as int);
        assert(union_of(s) =~= union_of(pre).union(last.to_set())) by {
            assert forall|v: int| union_of(s).contains(v)
                implies union_of(pre).union(last.to_set()).contains(v) by {
                let i = choose|i: int|
                    0 <= i < s.len() && (#[trigger] s[i]).start <= v < s[i].end;
                if i < s.len() - 1 {
                    assert(pre[i].start <= v < pre[i].end);
                }
            }
            assert forall|v: int| union_of(pre).union(last.to_set()).contains(v)
                implies union_of(s).contains(v) by {
                if union_of(pre).contains(v) {
                    let i = choose|i: int|
                        0 <= i < pre.len() && (#[trigger] pre[i]).start <= v < pre[i].end;
                    assert(s[i].start <= v < s[i].end);
                } else {
                    assert(s[s.len() - 1].start <= v < s[s.len() - 1].end);
                }
            }
        }
        assert(union_of(pre).disjoint(last.to_set())) by {
            assert forall|v: int| union_of(pre).contains(v)
                implies !last.to_set().contains(v) by {
                let i = choose|i: int|
                    0 <= i < pre.len() && (#[trigger] pre[i]).start <= v < pre[i].end;
                assert(s[i].end <= s[s.len() - 1].start);
            }
        }
        lemma_set_disjoint_lens(union_of(pre), last.to_set());
        assert(union_of(pre).union(last.to_set()) == union_of(pre) + last.to_set());
    }
}

/// Appending an interval adds exactly its values to the union.
pub proof fn lemma_union_of_push(s: Seq<Interval>, x: Interval)
    ensures
        union_of(s.push(x)) == union_of(s).union(x.to_set()),
{
    assert(union_of(s.push(x)) =~= union_of(s).union(x.to_set())) by {
        assert forall|v: int| union_of(s.push(x)).contains(v)
            implies union_of(s).union(x.to_set()).contains(v) by {
            let i = choose|i: int|
                0 <= i < s.push(x).len() && (#[trigger] s.push(x)[i]).start <= v < s.push(x)[i].end;
            if i < s.len() {
                assert(s[i].start <= v < s[i].end);
            } else {
                assert(s.push(x)[i] == x);
            }
        }
        assert forall|v: int| union_of(s).union(x.to_set()).contains(v)
            implies union_of(s.push(x)).contains(v) by {
            if union_of(s).contains(v) {
                let i = choose|i: int|
                    0 <= i < s.len() && (#[trigger] s[i]).start <= v < s[i].end;
                assert(s.push(x)[i].start <= v < s.push(x)[i].end);
            } else {
                assert(s.push(x)[s.len() as int].start <= v < s.push(x)[s.len() as int].end);
            }
        }
    }
}

/// Extending a prefix by one interval adds exactly its values to the union.
pub proof fn lemma_union_of_take_step(s: Seq<Interval>, n: int)
    requires
        0 <= n < s.len(),
    ensures
        union_of(s.take(n + 1)) == union_of(s.take(n)).union(s[n].to_set()),
{
    assert(s.take(n + 1) =~= s.take(n).push(s[n]));
    lemma_union_of_push(s.take(n), s[n]);
}

/// An immutable collection of disjoint intervals, standing for a set of
/// `u64` values.  Constructors establish `wf` and every operation keeps it.
#[derive(Debug, Clone)]
pub struct RangeSet {
    pub intervals: Vec<Interval>,
}

impl RangeSet {
    /// Well-formed: non-empty intervals, sorted and pairwise disjoint.
    pub open spec fn wf(self) -> bool {
        all_non_empty(self.intervals@) && disjoint_sorted(self.intervals@)
    }

    /// The set of values the range set stands for.
    pub open spec fn to_set(self) -> Set<int> {
        union_of(self.intervals@)
    }

    /// The total number of values, counted per interval.
    pub open spec fn sum_lengths(self) -> int {
        sum_lengths_of(self.intervals@)
    }

    /// The intervals, for callers that want to look at the representation.
    pub fn intervals(&self) -> (r: &Vec<Interval>)
        ensures
            r@ == self.intervals@,
    {
        &self.intervals
    }

    /// The set of values named by `(start, length)` pairs.
    pub open spec fn pairs_set(pairs: Seq<(u64, u64)>) -> Set<int> {
        Set::new(
            |v: int|
                exists|i: int|
                    0 <= i < pairs.len() && (#[trigger] pairs[i]).0 <= v < pairs[i].0
                        + pairs[i].1,
        )
    }

    /// No pair runs past the end of the `u64` domain.
    pub open spec fn pairs_valid(pairs: Seq<(u64, u64)>) -> bool {
        forall|i: int|
            0 <= i < pairs.len() ==> (#[trigger] pairs[i]).0 + pairs[i].1 <= u64::MAX
    }

    /// Builds a range set from `(start, length)` pairs.  A pair of length zero
    /// is dropped; a pair that would run past `u64::MAX` is rejected.
    pub fn from_raw(pairs: &Vec<(u64, u64)>) -> (r: Result<RangeSet, Error>)
        ensures
            match r {
                Ok(rs) => Self::pairs_valid(pairs@) && rs.wf() && rs.to_set()
                    == Self::pairs_set(pairs@),
                Err(e) => e == Error::InvalidRange && !Self::pairs_valid(pairs@),
            },
    {
        let mut raw: Vec<Interval> = Vec::new();
        let mut k: usize = 0;
        while k < pairs.len()
            invariant
                0 <= k <= pairs@.len(),
                all_non_empty(raw@),
                Self::pairs_valid(pairs@.take(k as int)),
                union_of(raw@) == Self::pairs_set(pairs@.take(k as int)),
            decreases pairs@.len() - k,
        {
            let (start, length) = pairs[k];
            if length > u64::MAX - start {
                return Err(Error::InvalidRange);
            }
            let ghost pre = raw@;
            if length > 0 {
                raw.push(Interval { start, end: start + length });
            }
            proof {
                assert(pairs@.take(k + 1 as int).drop_last() == pairs@.take(k as int));
                assert(union_of(raw@) =~= Self::pairs_set(pairs@.take(k + 1 as int))) by {
                    let now = pairs@.take(k + 1 as int);
                    assert forall|v: int| union_of(raw@).contains(v)
                        implies Self::pairs_set(now).contains(v) by {
                        let i = choose|i: int|
                            0 <= i < raw@.len() && (#[trigger] raw@[i]).start <= v
                                < raw@[i].end;
                        if i < pre.len() {
                            assert(union_of(pre).contains(v));
                            let j = choose|j: int|
                                0 <= j < pairs@.take(k as int).len()
                                    && (#[trigger] pairs@.take(k as int)[j]).0 <= v
                                    < pairs@.take(k as int)[j].0 + pairs@.take(
                                    k as int,
                                )[j].1;
                            assert(now[j].0 <= v < now[j].0 + now[j].1);
                        } else {
                            assert(now[k as int].0 <= v < now[k as int].0 + now[k as int].1);
                        }
                    }
                    assert forall|v: int| Self::pairs_set(now).contains(v)
                        implies union_of(raw@).contains(v) by {
                        let j = choose|j: int|
                            0 <= j < now.len() && (#[trigger] now[j]).0 <= v < now[j].0
                                + now[j].1;
                        if j < k as int {
                            assert(pairs@.take(k as int)[j].0 <= v < pairs@.take(k as int)[j].0
                                + pairs@.take(k as int)[j].1);
                            assert(union_of(pre).contains(v));
                            let i = choose|i: int|
                                0 <= i < pre.len() && (#[trigger] pre[i]).start <= v
                                    < pre[i].end;
                            assert(raw@[i].start <= v < raw@[i].end);
                        } else {
                            assert(raw@[raw@.len() - 1].start <= v < raw@[raw@.len() - 1].end);
                        }
                    }
                }
            }
            k += 1;
        }
        proof {
            assert(pairs@.take(k as int) == pairs@);
        }
        Ok(Self::normalize(raw))
    }

    /// The smallest value held by the range set, if any.
    pub fn minimum_start(&self) -> (r: Option<u64>)
        requires
            all_non_empty(self.intervals@),
        ensures
            match r {
                Option::None => self.to_set().is_empty(),
                Option::Some(m) => self.to_set().contains(m as int) && forall|v: int|
                    self.to_set().contains(v) ==> m as int <= v,
            },
    {
        let mut best: Option<u64> = None;
        let mut k: usize = 0;
        while k < self.intervals.len()
            invariant
                0 <= k <= self.intervals@.len(),
                all_non_empty(self.intervals@),
                match best {
                    Option::None => k == 0,
                    Option::Some(b) => exists|i: int|
                        0 <= i < k && (#[trigger] self.intervals@[i]).start == b && forall|
                            i: int,
                        | 0 <= i < k ==> b <= (#[trigger] self.intervals@[i]).start,
                },
            decreases self.intervals@.len() - k,
        {
            let s = self.intervals[k].start;
            best = match best {
                None => Some(s),
                Some(b) => if s < b {
                    Some(s)
                } else {
                    Some(b)
                },
            };
            k += 1;
        }
        proof {
            match best {
                Option::None => {
                    assert(self.to_set() =~= Set::empty());
                },
                Option::Some(b) => {
                    let i = choose|i: int|
                        0 <= i < k && (#[trigger] self.intervals@[i]).start == b && forall|
                            i: int,
                        | 0 <= i < k ==> b <= (#[trigger] self.intervals@[i]).start;
                    assert(self.intervals@[i].start <= b && (b as int) < self.intervals@[i].end);
                    assert(self.to_set().contains(b as int));
                    assert forall|v: int| self.to_set().contains(v) implies b as int <= v by {
                        let j = choose|j: int|
                            0 <= j < self.intervals@.len()
                                && (#[trigger] self.intervals@[j]).start <= v
                                < self.intervals@[j].end;
                    }
                },
            }
        }
        best
    }

    /// Pushes the whole range set through one stage: the result stands for
    /// exactly the image of this set's values under the stage's map.
    ///
    /// The carve-off algorithm: the leading piece of each interval lying
    /// wholly inside one entry's source span is shifted by that entry's
    /// offset; a leading piece lying wholly in a gap before the next entry
    /// passes through unchanged; the rest of the interval is processed the
    /// same way until nothing is left.
    pub fn apply_stage(&self, stage: &StageTable) -> (r: RangeSet)
        requires
            self.wf(),
            stage.wf(),
        ensures
            r.wf(),
            r.to_set() == stage.image(self.to_set()),
    {
        let mut pieces: Vec<Interval> = Vec::new();
        proof {
            stage.lemma_image_empty();
            assert(self.intervals@.take(0) =~= Seq::<Interval>::empty());
            assert(union_of(Seq::<Interval>::empty()) =~= Set::<int>::empty());
            assert(union_of(pieces@) =~= Set::<int>::empty());
        }
        let mut n: usize = 0;
        while n < self.intervals.len()
            invariant
                0 <= n <= self.intervals@.len(),
                self.wf(),
                stage.wf(),
                all_non_empty(pieces@),
                union_of(pieces@) == stage.image(union_of(self.intervals@.take(n as int))),
            decreases self.intervals@.len() - n,
        {
            let iv = self.intervals[n];
            let mut cur = iv.start;
            proof {
                assert(set_int_range(iv.start as int, cur as int) =~= Set::<int>::empty());
                stage.lemma_image_empty();
                assert(union_of(pieces@) =~= stage.image(
                    union_of(self.intervals@.take(n as int)),
                ).union(stage.image(set_int_range(iv.start as int, cur as int))));
            }
            while cur < iv.end
                invariant
                    self.wf(),
                    stage.wf(),
                    n < self.intervals@.len(),
                    iv == self.intervals@[n as int],
                    iv.start <= cur <= iv.end,
                    all_non_empty(pieces@),
                    union_of(pieces@) == stage.image(
                        union_of(self.intervals@.take(n as int)),
                    ).union(stage.image(set_int_range(iv.start as int, cur as int))),
                decreases iv.end - cur,
            {
                let idx = stage.first_overlap_idx(cur);
                let ghost pre = pieces@;
                let ghost prev_cur = cur as int;
                if idx == stage.entries.len() {
                    // no entry reaches this far: the rest passes through
                    let piece = Interval { start: cur, end: iv.end };
                    pieces.push(piece);
                    proof {
                        lemma_union_of_push(pre, piece);
                        assert forall|v: int| prev_cur <= v < iv.end as int
                            implies #[trigger] stage.map_value(v) == v by {
                            assert forall|i: int| 0 <= i < stage.entries@.len()
                                implies !(#[trigger] stage.entries@[i]).covers(v) by {
                                assert(stage.entries@[i].source_end <= cur);
                            }
                            stage.lemma_map_value_identity(v);
                        }
                        stage.lemma_image_identity_range(prev_cur, iv.end as int);
                    }
                    cur = iv.end;
                } else {
                    let e = stage.entries[idx];
                    proof {
                        assert(e == stage.entries@[idx as int] && e.wf());
                    }
                    if cur < e.source_start {
                        // a gap before the nearest entry: identity piece
                        let piece_end = if iv.end < e.source_start {
                            iv.end
                        } else {
                            e.source_start
                        };
                        let piece = Interval { start: cur, end: piece_end };
                        pieces.push(piece);
                        proof {
                            lemma_union_of_push(pre, piece);
                            assert forall|v: int| prev_cur <= v < piece_end as int
                                implies #[trigger] stage.map_value(v) == v by {
                                assert forall|i: int| 0 <= i < stage.entries@.len()
                                    implies !(#[trigger] stage.entries@[i]).covers(v) by {
                                    if i < idx {
                                        assert(stage.entries@[i].source_end <= cur);
                                    } else if i > idx {
                                        assert(stage.entries@[idx as int].source_end <= (
                                        stage.entries@[i]).source_start);
                                    }
                                }
                                stage.lemma_map_value_identity(v);
                            }
                            stage.lemma_image_identity_range(prev_cur, piece_end as int);
                        }
                        cur = piece_end;
                    } else {
                        // inside the entry's span: shifted piece
                        let piece_end = if iv.end < e.source_end {
                            iv.end
                        } else {
                            e.source_end
                        };
                        let off_lo = cur - e.source_start;
                        let off_hi = piece_end - e.source_start;
                        let piece = Interval {
                            start: e.dest_start + off_lo,
                            end: e.dest_start + off_hi,
                        };
                        pieces.push(piece);
                        proof {
                            lemma_union_of_push(pre, piece);
                            assert forall|v: int| prev_cur <= v < piece_end as int
                                implies #[trigger] stage.map_value(v) == v + e.delta() by {
                                assert(stage.entries@[idx as int].covers(v));
                                stage.lemma_map_value_at(v, idx as int);
                            }
                            stage.lemma_image_shift_range(prev_cur, piece_end as int, e.delta());
                            assert(piece.to_set() =~= set_int_range(
                                prev_cur + e.delta(),
                                piece_end as int + e.delta(),
                            ));
                        }
                        cur = piece_end;
                    }
                }
                proof {
                    assert(set_int_range(iv.start as int, prev_cur).union(
                        set_int_range(prev_cur, cur as int),
                    ) =~= set_int_range(iv.start as int, cur as int));
                    stage.lemma_image_union(
                        set_int_range(iv.start as int, prev_cur),
                        set_int_range(prev_cur, cur as int),
                    );
                    assert(union_of(pieces@) =~= stage.image(
                        union_of(self.intervals@.take(n as int)),
                    ).union(stage.image(set_int_range(iv.start as int, cur as int))));
                }
            }
            proof {
                lemma_union_of_take_step(self.intervals@, n as int);
                stage.lemma_image_union(union_of(self.intervals@.take(n as int)), iv.to_set());
                assert(set_int_range(iv.start as int, cur as int) == iv.to_set());
                assert(union_of(pieces@) =~= stage.image(
                    union_of(self.intervals@.take(n + 1 as int)),
                ));
            }
            n += 1;
        }
        proof {
            assert(self.intervals@.take(self.intervals@.len() as int) == self.intervals@);
        }
        Self::normalize(pieces)
    }

    /// Totality of a stage application: when the stage sends no two values of
    /// the input to the same place, the output holds exactly as many values
    /// as the input — nothing is dropped and nothing is duplicated.
    ///
    /// The hypothesis cannot be spared: a table whose destination spans
    /// collide may fold two input values together, and the merged output then
    /// counts the landing place once.
    pub proof fn lemma_apply_stage_total(r: RangeSet, t: StageTable, out: RangeSet)
        requires
            r.wf(),
            t.wf(),
            out.wf(),
            out.to_set() == t.image(r.to_set()),
            forall|u: int, v: int|
                r.to_set().contains(u) && r.to_set().contains(v) && u != v ==> t.map_value(u)
                    != t.map_value(v),
        ensures
            out.sum_lengths() == r.sum_lengths(),
    {
        lemma_sum_lengths_is_cardinality(r.intervals@);
        lemma_sum_lengths_is_cardinality(out.intervals@);
        let f = |v: int| t.map_value(v);
        assert(t.image(r.to_set()) =~= r.to_set().map(f)) by {
            assert forall|w: int| t.image(r.to_set()).contains(w)
                implies r.to_set().map(f).contains(w) by {
                let v = choose|v: int|
                    r.to_set().contains(v) && w == #[trigger] t.map_value(v);
                assert(r.to_set().contains(v) && w == f(v));
            }
            assert forall|w: int| r.to_set().map(f).contains(w)
                implies t.image(r.to_set()).contains(w) by {
                let v = choose|v: int| r.to_set().contains(v) && w == #[trigger] f(v);
                assert(r.to_set().contains(v) && w == t.map_value(v));
            }
        }
        assert(vstd::relations::injective_on(f, r.to_set()));
        vstd::set_lib::lemma_map_size(r.to_set(), out.to_set(), f);
    }

    /// An empty stage table is the identity: the image of any set of values
    /// under it is that set itself.  Together with `apply_stage`'s
    /// postcondition: applying an empty stage returns the input set of
    /// intervals, up to splitting and merging of adjacent pieces.
    pub proof fn lemma_identity_stage(r: RangeSet, t: StageTable)
        requires
            t.entries@.len() == 0,
        ensures
            t.image(r.to_set()) == r.to_set(),
    {
        assert(t.image(r.to_set()) =~= r.to_set()) by {
            assert forall|w: int| t.image(r.to_set()).contains(w)
                implies r.to_set().contains(w) by {
                let v = choose|v: int|
                    r.to_set().contains(v) && w == #[trigger] t.map_value(v);
                t.lemma_map_value_identity(v);
            }
            assert forall|w: int| r.to_set().contains(w)
                implies t.image(r.to_set()).contains(w) by {
                t.lemma_map_value_identity(w);
                assert(r.to_set().contains(w) && w == t.map_value(w));
            }
        }
    }

    /// Determinism of a stage application: the output value set is a function
    /// of the input value set and the table alone, so two runs on the same
    /// input agree.
    pub proof fn lemma_apply_stage_deterministic(
        r1: RangeSet,
        r2: RangeSet,
        t: StageTable,
        out1: RangeSet,
        out2: RangeSet,
    )
        requires
            r1.to_set() == r2.to_set(),
            out1.to_set() == t.image(r1.to_set()),
            out2.to_set() == t.image(r2.to_set()),
        ensures
            out1.to_set() == out2.to_set(),
    {
    }

    /// Disjointness: two distinct intervals of a well-formed range set never
    /// share a value.  `apply_stage` ensures `wf`, so its output is always
    /// composed of pairwise disjoint intervals.
    pub proof fn lemma_wf_pairwise_disjoint(r: RangeSet, i: int, j: int)
        requires
            r.wf(),
            0 <= i < r.intervals@.len(),
            0 <= j < r.intervals@.len(),
            i != j,
        ensures
            r.intervals@[i].to_set().disjoint(r.intervals@[j].to_set()),
    {
        assert forall|v: int| r.intervals@[i].to_set().contains(v)
            implies !r.intervals@[j].to_set().contains(v) by {
            if i < j {
                assert(r.intervals@[i].end <= r.intervals@[j].start);
            } else {
                assert(r.intervals@[j].end <= r.intervals@[i].start);
            }
        }
    }

    /// The total number of values held, as an executable count.
    pub fn total_length(&self) -> (r: u64)
        requires
            self.wf(),
        ensures
            r == self.sum_lengths(),
    {
        proof {
            lemma_sum_lengths_is_cardinality(self.intervals@);
        }
        let mut total: u64 = 0;
        let mut k: usize = 0;
        while k < self.intervals.len()
            invariant
                0 <= k <= self.intervals@.len(),
                self.wf(),
                total == sum_lengths_of(self.intervals@.take(k as int)),
                total <= u64::MAX,
            decreases self.intervals@.len() - k,
        {
            let iv = self.intervals[k];
            proof {
                assert(self.intervals@.take(k + 1 as int).drop_last() == self.intervals@.take(
                    k as int,
                ));
                assert(self.intervals@.take(k + 1 as int).last() == iv);
                // the running total stays within the `u64` domain: it counts
                // a prefix of a set of distinct `u64` values
                assert(all_non_empty(self.intervals@.take(k + 1 as int))
                    && disjoint_sorted(self.intervals@.take(k + 1 as int))) by {
                    assert(forall|i: int|
                        0 <= i < k + 1 ==> self.intervals@.take(k + 1 as int)[i]
                            == self.intervals@[i]);
                }
                lemma_sum_lengths_is_cardinality(self.intervals@.take(k + 1 as int));
                let s = union_of(self.intervals@.take(k + 1 as int));
                assert(s.subset_of(set_int_range(0, u64::MAX as int))) by {
                    assert forall|v: int| s.contains(v)
                        implies set_int_range(0, u64::MAX as int).contains(v) by {
                        let i = choose|i: int|
                            0 <= i < self.intervals@.take(k + 1 as int).len() && (
                            #[trigger] self.intervals@.take(k + 1 as int)[i]).start <= v
                                < self.intervals@.take(k + 1 as int)[i].end;
                    }
                }
                lemma_int_range(0, u64::MAX as int);
                vstd::set_lib::lemma_len_subset(s, set_int_range(0, u64::MAX as int));
            }
            total = total + (iv.end - iv.start);
            k += 1;
        }
        proof {
            assert(self.intervals@.take(self.intervals@.len() as int) == self.intervals@);
        }
        total
    }

    /// Inserts an interval into a start-sorted sequence, keeping it sorted.
    fn sorted_insert(out: &mut Vec<Interval>, x: Interval)
        requires
            sorted_by_start(old(out)@),
            all_non_empty(old(out)@),
            x.non_empty(),
        ensures
            sorted_by_start(final(out)@),
            all_non_empty(final(out)@),
            union_of(final(out)@) == union_of(old(out)@).union(x.to_set()),
    {
        let mut idx: usize = 0;
        while idx < out.len() && out[idx].start <= x.start
            invariant
                0 <= idx <= out@.len(),
                forall|i: int| 0 <= i < idx ==> (#[trigger] out@[i]).start <= x.start,
                sorted_by_start(out@),
                all_non_empty(out@),
                out@ == old(out)@,
            decreases out@.len() - idx,
        {
            idx += 1;
        }
        let ghost pre = out@;
        out.insert(idx, x);
        proof {
            pre.insert_ensures(idx as int, x);
            assert forall|i: int, j: int| 0 <= i < j < out@.len()
                implies (#[trigger] out@[i]).start <= (#[trigger] out@[j]).start by {
                if i < idx && j > idx {
                    assert(out@[i] == pre[i] && out@[j] == pre[j - 1]);
                }
            }
            assert(union_of(out@) =~= union_of(pre).union(x.to_set())) by {
                assert forall|v: int| union_of(out@).contains(v)
                    implies union_of(pre).union(x.to_set()).contains(v) by {
                    let i = choose|i: int|
                        0 <= i < out@.len() && (#[trigger] out@[i]).start <= v < out@[i].end;
                    if i < idx {
                        assert(pre[i].start <= v < pre[i].end);
                    } else if i > idx {
                        assert(pre[i - 1].start <= v < pre[i - 1].end);
                    }
                }
                assert forall|v: int| union_of(pre).union(x.to_set()).contains(v)
                    implies union_of(out@).contains(v) by {
                    if union_of(pre).contains(v) {
                        let i = choose|i: int|
                            0 <= i < pre.len() && (#[trigger] pre[i]).start <= v < pre[i].end;
                        if i < idx {
                            assert(out@[i].start <= v < out@[i].end);
                        } else {
                            assert(out@[i + 1].start <= v < out@[i + 1].end);
                        }
                    } else {
                        assert(out@[idx as int].start <= v < out@[idx as int].end);
                    }
                }
            }
        }
    }

    /// Turns an arbitrary collection of non-empty intervals into a
    /// well-formed range set holding exactly the same values.
    fn normalize(v: Vec<Interval>) -> (r: RangeSet)
        requires
            all_non_empty(v@),
        ensures
            r.wf(),
            r.to_set() == union_of(v@),
    {
        let mut sorted: Vec<Interval> = Vec::new();
        let mut k: usize = 0;
        while k < v.len()
            invariant
                0 <= k <= v@.len(),
                all_non_empty(v@),
                sorted_by_start(sorted@),
                all_non_empty(sorted@),
                union_of(sorted@) == union_of(v@.take(k as int)),
            decreases v@.len() - k,
        {
            let ghost pre = sorted@;
            Self::sorted_insert(&mut sorted, v[k]);
            proof {
                assert(union_of(v@.take(k + 1 as int)) =~= union_of(v@.take(k as int)).union(
                    v@[k as int].to_set(),
                )) by {
                    let now = v@.take(k + 1 as int);
                    let before = v@.take(k as int);
                    assert forall|w: int| union_of(now).contains(w)
                        implies union_of(before).union(v@[k as int].to_set()).contains(w) by {
                        let i = choose|i: int|
                            0 <= i < now.len() && (#[trigger] now[i]).start <= w < now[i].end;
                        if i < k as int {
                            assert(before[i].start <= w < before[i].end);
                        }
                    }
                    assert forall|w: int| union_of(before).union(v@[k as int].to_set()).contains(
                        w,
                    ) implies union_of(now).contains(w) by {
                        if union_of(before).contains(w) {
                            let i = choose|i: int|
                                0 <= i < before.len() && (#[trigger] before[i]).start <= w
                                    < before[i].end;
                            assert(now[i].start <= w < now[i].end);
                        } else {
                            assert(now[k as int].start <= w < now[k as int].end);
                        }
                    }
                }
            }
            k += 1;
        }
        proof {
            assert(v@.take(k as int) == v@);
        }
        // Merge overlapping or touching neighbours, left to right.
        let mut merged: Vec<Interval> = Vec::new();
        let mut j: usize = 0;
        while j < sorted.len()
            invariant
                0 <= j <= sorted@.len(),
                sorted_by_start(sorted@),
                all_non_empty(sorted@),
                all_non_empty(merged@),
                disjoint_sorted(merged@),
                union_of(merged@) == union_of(sorted@.take(j as int)),
                merged@.len() > 0 ==> forall|i: int|
                    j <= i < sorted@.len() ==> merged@.last().start <= (
                    #[trigger] sorted@[i]).start,
                merged@.len() == 0 ==> j == 0,
            decreases sorted@.len() - j,
        {
            let x = sorted[j];
            let ghost pre = merged@;
            if merged.len() == 0 {
                merged.push(x);
            } else {
                let last = merged[merged.len() - 1];
                if last.end < x.start {
                    merged.push(x);
                    proof {
                        assert forall|i: int, jj: int| 0 <= i < jj < merged@.len()
                            implies (#[trigger] merged@[i]).end <= (
                        #[trigger] merged@[jj]).start by {
                            if jj == merged@.len() - 1 && i < merged@.len() - 2 {
                                assert(pre[i].end <= pre[pre.len() - 1].start);
                                assert(pre[pre.len() - 1].start < pre[pre.len() - 1].end);
                            }
                        }
                    }
                } else {
                    let new_end = if x.end > last.end {
                        x.end
                    } else {
                        last.end
                    };
                    let _ = merged.pop();
                    merged.push(Interval { start: last.start, end: new_end });
                    proof {
                        assert(merged@ == pre.update(pre.len() - 1, Interval {
                                start: last.start,
                                end: new_end,
                            }));
                    }
                }
            }
            proof {
                assert(union_of(merged@) =~= union_of(sorted@.take(j + 1 as int))) by {
                    let now = sorted@.take(j + 1 as int);
                    assert forall|w: int| union_of(merged@).contains(w)
                        implies union_of(now).contains(w) by {
                        let i = choose|i: int|
                            0 <= i < merged@.len() && (#[trigger] merged@[i]).start <= w
                                < merged@[i].end;
                        if i < pre.len() - 1 || (pre.len() > 0 && i < pre.len()
                            && merged@[i] == pre[i]) {
                            assert(union_of(pre).contains(w));
                            let ii = choose|ii: int|
                                0 <= ii < sorted@.take(j as int).len() && (#[trigger] sorted@.take(
                                    j as int,
                                )[ii]).start <= w < sorted@.take(j as int)[ii].end;
                            assert(now[ii].start <= w < now[ii].end);
                        } else {
                            // the freshly pushed interval: either x itself or the widened last
                            if w < x.start {
                                assert(union_of(pre).contains(w));
                                let ii = choose|ii: int|
                                    0 <= ii < sorted@.take(j as int).len()
                                        && (#[trigger] sorted@.take(j as int)[ii]).start <= w
                                        < sorted@.take(j as int)[ii].end;
                                assert(now[ii].start <= w < now[ii].end);
                            } else {
                                if w < x.end {
                                    assert(now[j as int].start <= w < now[j as int].end);
                                } else {
                                    assert(union_of(pre).contains(w));
                                    let ii = choose|ii: int|
                                        0 <= ii < sorted@.take(j as int).len()
                                            && (#[trigger] sorted@.take(j as int)[ii]).start <= w
                                            < sorted@.take(j as int)[ii].end;
                                    assert(now[ii].start <= w < now[ii].end);
                                }
                            }
                        }
                    }
                    assert forall|w: int| union_of(now).contains(w)
                        implies union_of(merged@).contains(w) by {
                        let i = choose|i: int|
                            0 <= i < now.len() && (#[trigger] now[i]).start <= w < now[i].end;
                        if i < j as int {
                            assert(sorted@.take(j as int)[i].start <= w < sorted@.take(
                                j as int,
                            )[i].end);
                            assert(union_of(pre).contains(w));
                            let ii = choose|ii: int|
                                0 <= ii < pre.len() && (#[trigger] pre[ii]).start <= w
                                    < pre[ii].end;
                            if pre.len() > 0 && ii == pre.len() - 1 && merged@[merged@.len()
                                - 1].start == pre[pre.len() - 1].start {
                                assert(merged@[merged@.len() - 1].start <= w < merged@[merged@.len()
                                    - 1].end);
                            } else {
                                assert(merged@[ii].start <= w < merged@[ii].end);
                            }
                        } else {
                            // w lies in x
                            assert(merged@[merged@.len() - 1].start <= w < merged@[merged@.len()
                                - 1].end);
                        }
                    }
                }
            }
            j += 1;
        }
        proof {
            assert(sorted@.take(j as int) == sorted@);
        }
        RangeSet { intervals: merged }
    }
}

} // verus!
