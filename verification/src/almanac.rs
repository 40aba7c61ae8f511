//! The almanac: initial value ranges plus an ordered chain of stage tables,
//! read from the puzzle's text format and processed stage by stage.
//!
//! The text holds one `seeds:` line of numbers and a group of
//! `(dest_start, source_start, length)` triples under each `... map:`
//! heading; group order gives stage order, and the heading names are
//! discarded once that order is fixed.

use vstd::prelude::*;
use vstd::string::StringSliceAdditionalSpecFns;
use crate::Error;
use crate::parse::{digits_value, in_class, is_digit, line_decomposition, line_spans, parse_u64, run_decomposition, runs_of, ByteClass};
use crate::pipeline::{lemma_stages_image_push, stages_image};
use crate::ranges::RangeSet;
use crate::stage::{has_overlap, triples_map_value, triples_valid, StageTable};

verus! {

/// The line starts with `seeds: `.
pub open spec fn is_seeds_line(s: Seq<u8>, a: int, b: int) -> bool {
    b - a >= 7 && s[a] == 's' as u8 && s[a + 1] == 'e' as u8 && s[a + 2] == 'e' as u8 && s[a + 3]
        == 'd' as u8 && s[a + 4] == 's' as u8 && s[a + 5] == ':' as u8 && s[a + 6] == ' ' as u8
}

/// `ns` lists exactly the numbers of the tail of the line `s[a..b)`: the
/// values of its maximal digit runs, in order.
pub open spec fn seed_numbers_of_line(s: Seq<u8>, a: int, b: int, ns: Seq<u64>) -> bool {
    exists|rs: Seq<(usize, usize)>|
        #[trigger] run_decomposition(s, a + 7, b, ByteClass::Digit, rs) && ns.len() == rs.len()
            && forall|q: int|
            0 <= q < rs.len() ==> ns[q] == digits_value(
                s.subrange((#[trigger] rs[q]).0 as int, rs[q].1 as int),
            )
}

/// Line `i` is the first `seeds: ` line of the list and `ns` holds its
/// numbers.
pub open spec fn seeds_in_lines(s: Seq<u8>, ls: Seq<(usize, usize)>, i: int, ns: Seq<u64>) -> bool {
    &&& 0 <= i < ls.len()
    &&& is_seeds_line(s, ls[i].0 as int, ls[i].1 as int)
    &&& forall|j: int|
        0 <= j < i ==> !is_seeds_line(s, (#[trigger] ls[j]).0 as int, ls[j].1 as int)
    &&& seed_numbers_of_line(s, ls[i].0 as int, ls[i].1 as int, ns)
}

/// Some line of the list is the first `seeds: ` line and `ns` holds its
/// numbers.
pub open spec fn has_seed_numbers(s: Seq<u8>, ls: Seq<(usize, usize)>, ns: Seq<u64>) -> bool {
    exists|i: int| #[trigger] seeds_in_lines(s, ls, i, ns)
}

/// The text `s`, split into its lines, holds a first `seeds: ` line whose
/// numbers are `ns`.
pub open spec fn seeds_of_text(s: Seq<u8>, ls: Seq<(usize, usize)>, i: int, ns: Seq<u64>) -> bool {
    &&& line_decomposition(s, 0, s.len() as int, ls)
    &&& seeds_in_lines(s, ls, i, ns)
}

/// The line holds a `map:` heading.
pub open spec fn is_heading(s: Seq<u8>, a: int, b: int) -> bool {
    exists|p: int|
        a <= p && p + 4 <= b && #[trigger] s[p] == 'm' as u8 && s[p + 1] == 'a' as u8 && s[p + 2]
            == 'p' as u8 && s[p + 3] == ':' as u8
}

/// The line `s[a..b)` has the cells of a triple: two spaces at `p` and `q`,
/// digits everywhere else, three non-empty segments.
pub open spec fn triple_cells(s: Seq<u8>, a: int, b: int, p: int, q: int) -> bool {
    &&& a < p && p + 1 < q && q + 1 < b
    &&& s[p] == ' ' as u8 && s[q] == ' ' as u8
    &&& forall|k: int| a <= k < b && k != p && k != q ==> is_digit(#[trigger] s[k])
}

/// The line `s[a..b)` is shaped like a triple.
pub open spec fn line_is_triple(s: Seq<u8>, a: int, b: int) -> bool {
    exists|p: int, q: int| #[trigger] triple_cells(s, a, b, p, q)
}

/// A triple line's two spaces sit at one place only.
pub proof fn lemma_triple_cells_unique(s: Seq<u8>, a: int, b: int, p1: int, q1: int, p2: int, q2: int)
    requires
        triple_cells(s, a, b, p1, q1),
        triple_cells(s, a, b, p2, q2),
    ensures
        p1 == p2 && q1 == q2,
{
    assert(!is_digit(' ' as u8));
    if p2 != p1 && p2 != q1 {
        assert(is_digit(s[p2]));
        assert(false);
    }
    if q2 != p1 && q2 != q1 {
        assert(is_digit(s[q2]));
        assert(false);
    }
}

/// On a triple-shaped line the maximal digit runs are exactly its three
/// number segments.
pub proof fn lemma_triple_cells_runs(
    s: Seq<u8>,
    a: int,
    b: int,
    rs: Seq<(usize, usize)>,
    p: int,
    q: int,
)
    requires
        run_decomposition(s, a, b, ByteClass::Digit, rs),
        triple_cells(s, a, b, p, q),
    ensures
        rs.len() == 3,
        rs[0].0 == a && rs[0].1 == p,
        rs[1].0 == p + 1 && rs[1].1 == q,
        rs[2].0 == q + 1 && rs[2].1 == b,
{
    assert(!is_digit(' ' as u8));
    crate::parse::lemma_max_run_is_listed(s, a, b, ByteClass::Digit, rs, a, p);
    crate::parse::lemma_max_run_is_listed(s, a, b, ByteClass::Digit, rs, p + 1, q);
    crate::parse::lemma_max_run_is_listed(s, a, b, ByteClass::Digit, rs, q + 1, b);
    let j1 = choose|j: int| 0 <= j < rs.len() && (#[trigger] rs[j]).0 == a && rs[j].1 == p;
    let j2 = choose|j: int| 0 <= j < rs.len() && (#[trigger] rs[j]).0 == p + 1 && rs[j].1 == q;
    let j3 = choose|j: int| 0 <= j < rs.len() && (#[trigger] rs[j]).0 == q + 1 && rs[j].1 == b;
    // the three are in order
    assert(j1 < j2) by {
        if j2 < j1 {
            assert(rs[j2].1 < rs[j1].0);
        } else if j1 == j2 {
            assert(false);
        }
    }
    assert(j2 < j3) by {
        if j3 < j2 {
            assert(rs[j3].1 < rs[j2].0);
        } else if j2 == j3 {
            assert(false);
        }
    }
    // every run is one of the three: its first cell is a digit, so it lies
    // in one of the segments, and two listed runs sharing a cell are equal
    assert forall|j: int| 0 <= j < rs.len() implies j == j1 || j == j2 || j == j3 || (
    #[trigger] rs[j]).0 > b by {
        let x = rs[j].0 as int;
        assert(in_class(ByteClass::Digit, s[x]));
        assert(x != p && x != q);
        if x < p {
            if j < j1 {
                assert(rs[j].1 < rs[j1].0);
            } else if j > j1 {
                assert(rs[j1].1 < rs[j].0);
            }
        } else if x < q {
            if j < j2 {
                assert(rs[j].1 < rs[j2].0);
            } else if j > j2 {
                assert(rs[j2].1 < rs[j].0);
            }
        } else {
            if j < j3 {
                assert(rs[j].1 < rs[j3].0);
            } else if j > j3 {
                assert(rs[j3].1 < rs[j].0);
            }
        }
    }
    assert(0 <= j1 && j3 < rs.len() && j1 < j2 < j3);
    assert(rs.len() == 3) by {
        if rs.len() > 3 {
            // four distinct indices cannot all be one of three values
            assert(rs[0].0 <= b && rs[1].0 <= b && rs[2].0 <= b && rs[3].0 <= b);
            assert(0int == j1 || 0int == j2 || 0int == j3);
            assert(1int == j1 || 1int == j2 || 1int == j3);
            assert(2int == j1 || 2int == j2 || 2int == j3);
            assert(3int == j1 || 3int == j2 || 3int == j3);
            assert(false);
        }
    }
    assert(j1 == 0 && j2 == 1 && j3 == 2);
}

/// The header-grouped triples of the first `n` lines: the groups already
/// closed by a later heading, the group being collected, and whether any
/// heading or triple has been seen.
pub open spec fn map_groups(s: Seq<u8>, ls: Seq<(usize, usize)>, n: int) -> (
    Seq<Seq<(u64, u64, u64)>>,
    Seq<(u64, u64, u64)>,
    bool,
)
    decreases n,
{
    if n <= 0 {
        (Seq::empty(), Seq::empty(), false)
    } else {
        let acc = map_groups(s, ls, n - 1);
        let a = ls[n - 1].0 as int;
        let b = ls[n - 1].1 as int;
        if is_heading(s, a, b) {
            if acc.2 {
                (acc.0.push(acc.1), Seq::empty(), true)
            } else {
                (acc.0, acc.1, true)
            }
        } else if line_is_triple(s, a, b) {
            (
                acc.0,
                acc.1.push(choose|t: (u64, u64, u64)| triple_line_shape(s, a, b, t)),
                true,
            )
        } else {
            acc
        }
    }
}

/// The stage groups of the whole text: every closed group, and the last one
/// once anything started it.
pub open spec fn text_stage_groups(s: Seq<u8>, ls: Seq<(usize, usize)>) -> Seq<
    Seq<(u64, u64, u64)>,
> {
    let acc = map_groups(s, ls, ls.len() as int);
    if acc.2 {
        acc.0.push(acc.1)
    } else {
        acc.0
    }
}

/// Groups once closed never change as more lines are read.
pub proof fn lemma_map_groups_prefix(s: Seq<u8>, ls: Seq<(usize, usize)>, n: int, m: int)
    requires
        0 <= n <= m,
    ensures
        map_groups(s, ls, n).0.len() <= map_groups(s, ls, m).0.len(),
        forall|g: int|
            0 <= g < map_groups(s, ls, n).0.len() ==> #[trigger] map_groups(s, ls, m).0[g]
                == map_groups(s, ls, n).0[g],
    decreases m - n,
{
    if n < m {
        lemma_map_groups_prefix(s, ls, n, m - 1);
    }
}

/// The line is shaped like a triple, but one of its numbers is past the
/// `u64` domain.
pub open spec fn overflowing_triple_line(s: Seq<u8>, a: int, b: int) -> bool {
    exists|p: int, q: int|
        #[trigger] triple_cells(s, a, b, p, q) && (digits_value(s.subrange(a, p)) > u64::MAX
            || digits_value(s.subrange(p + 1, q)) > u64::MAX || digits_value(
            s.subrange(q + 1, b),
        ) > u64::MAX)
}

/// No line of the list starts with `seeds: `.
pub open spec fn no_seeds_line(s: Seq<u8>, ls: Seq<(usize, usize)>) -> bool {
    forall|i: int|
        0 <= i < ls.len() ==> !is_seeds_line(s, (#[trigger] ls[i]).0 as int, ls[i].1 as int)
}

/// The tail of the line holds a maximal digit run past the `u64` domain.
pub open spec fn seeds_line_overflows(s: Seq<u8>, a: int, b: int) -> bool {
    exists|x: int, y: int|
        a + 7 <= x < y <= b && (forall|k: int| x <= k < y ==> is_digit(#[trigger] s[k])) && (x == a
            + 7 || !is_digit(s[x - 1])) && (y == b || !is_digit(s[y])) && digits_value(
            #[trigger] s.subrange(x, y),
        ) > u64::MAX
}

/// Some `seeds: ` line of the list holds a number past the `u64` domain.
pub open spec fn seeds_overflow_in(s: Seq<u8>, ls: Seq<(usize, usize)>) -> bool {
    exists|i: int|
        0 <= i < ls.len() && is_seeds_line(s, (#[trigger] ls[i]).0 as int, ls[i].1 as int)
            && seeds_line_overflows(s, ls[i].0 as int, ls[i].1 as int)
}

/// Some line of the list is a triple with a number past the `u64` domain.
pub open spec fn triple_overflow_in(s: Seq<u8>, ls: Seq<(usize, usize)>) -> bool {
    exists|i: int|
        0 <= i < ls.len() && overflowing_triple_line(s, (#[trigger] ls[i]).0 as int, ls[i].1 as int)
}

/// Some stage group of the text holds an invalid row.
pub open spec fn bad_group_in(s: Seq<u8>, ls: Seq<(usize, usize)>) -> bool {
    exists|g: int|
        0 <= g < text_stage_groups(s, ls).len() && !triples_valid(
            #[trigger] text_stage_groups(s, ls)[g],
        )
}

/// Some stage group of the text has intersecting source spans.
pub open spec fn overlap_group_in(s: Seq<u8>, ls: Seq<(usize, usize)>) -> bool {
    exists|g: int|
        0 <= g < text_stage_groups(s, ls).len() && triples_valid(
            #[trigger] text_stage_groups(s, ls)[g],
        ) && has_overlap(text_stage_groups(s, ls)[g])
}

/// Some seed number is `u64::MAX`, whose singleton range would overflow.
pub open spec fn seed_past_max(ns: Seq<u64>) -> bool {
    exists|q: int| 0 <= q < ns.len() && (#[trigger] ns[q]) == u64::MAX
}

/// Some seed pair runs past the end of the `u64` domain.
pub open spec fn pair_past_max(ns: Seq<u64>) -> bool {
    exists|q: int| 0 <= 2 * q + 1 < ns.len() && (#[trigger] ns[2 * q]) + ns[2 * q + 1] > u64::MAX
}

/// Why the map sections of the text cannot be read: a triple line with a
/// number past `u64`, a group with an invalid row, or a group whose source
/// spans intersect.
pub open spec fn parse_maps_rejects(s: Seq<u8>, ls: Seq<(usize, usize)>, e: Error) -> bool {
    match e {
        Error::MalformedInput => triple_overflow_in(s, ls),
        Error::InvalidRange => bad_group_in(s, ls),
        Error::OverlappingEntries => overlap_group_in(s, ls),
    }
}

/// Why the whole text cannot be read, for the given error and seed mode.
pub open spec fn almanac_rejects(s: Seq<u8>, ls: Seq<(usize, usize)>, e: Error, singletons: bool) -> bool {
    match e {
        Error::MalformedInput => no_seeds_line(s, ls) || seeds_overflow_in(s, ls)
            || triple_overflow_in(s, ls),
        Error::InvalidRange => (exists|i: int, ns: Seq<u64>|
            #[trigger] seeds_in_lines(s, ls, i, ns) && if singletons {
                seed_past_max(ns)
            } else {
                pair_past_max(ns)
            }) || bad_group_in(s, ls),
        Error::OverlappingEntries => overlap_group_in(s, ls),
    }
}

/// Why the whole text cannot be read, quantified over its line split.
pub open spec fn almanac_rejected(s: Seq<u8>, e: Error, singletons: bool) -> bool {
    exists|ls: Seq<(usize, usize)>|
        #[trigger] line_decomposition(s, 0, s.len() as int, ls) && almanac_rejects(
            s,
            ls,
            e,
            singletons,
        )
}

/// The stage tables realize exactly the text's header-delimited groups.
pub open spec fn stages_realize(s: Seq<u8>, ls: Seq<(usize, usize)>, ss: Seq<StageTable>) -> bool {
    &&& ss.len() == text_stage_groups(s, ls).len()
    &&& forall|g: int, v: int|
        0 <= g < ss.len() ==> #[trigger] ss[g].map_value(v) == triples_map_value(
            text_stage_groups(s, ls)[g],
            v,
        )
}

/// The line `s[a..b)` spells the triple `t`, with its two separating spaces
/// at `p` and `q`: three numbers and nothing else.
pub open spec fn triple_line_parts(
    s: Seq<u8>,
    a: int,
    b: int,
    p: int,
    q: int,
    t: (u64, u64, u64),
) -> bool {
    &&& triple_cells(s, a, b, p, q)
    &&& t.0 == digits_value(s.subrange(a, p))
    &&& t.1 == digits_value(s.subrange(p + 1, q))
    &&& t.2 == digits_value(s.subrange(q + 1, b))
}

/// The line `s[a..b)` spells the triple `t`.
pub open spec fn triple_line_shape(s: Seq<u8>, a: int, b: int, t: (u64, u64, u64)) -> bool {
    exists|p: int, q: int| #[trigger] triple_line_parts(s, a, b, p, q, t)
}

/// Initial ranges, the stage chain, and how many stages have been applied.
#[derive(Debug)]
pub struct Almanac {
    pub ranges: RangeSet,
    pub stages: Vec<StageTable>,
    pub next: usize,
}

impl Almanac {
    /// Well-formed: the range set and every stage table are, and the cursor
    /// stays within the chain.
    pub open spec fn wf(self) -> bool {
        &&& self.ranges.wf()
        &&& self.next <= self.stages@.len()
        &&& forall|i: int| 0 <= i < self.stages@.len() ==> (#[trigger] self.stages@[i]).wf()
    }

    /// Reads the text with each seed number as a singleton range: the built
    /// ranges hold exactly the numbers of the first `seeds:` line.
    pub fn from1(s: &str) -> (r: Result<Almanac, Error>)
        ensures
            match r {
                Ok(a) => a.wf() && a.next == 0 && exists|
                    ls: Seq<(usize, usize)>,
                    i: int,
                    ns: Seq<u64>,
                |
                    #[trigger] seeds_of_text(s.spec_bytes(), ls, i, ns) && a.ranges.to_set()
                        == Set::new(
                        |w: int|
                            exists|q: int| 0 <= q < ns.len() && (#[trigger] ns[q]) == w,
                    ) && stages_realize(s.spec_bytes(), ls, a.stages@),
                Err(e) => almanac_rejected(s.spec_bytes(), e, true),
            },
    {
        let bytes = s.as_bytes();
        let lines = line_spans(bytes, 0, bytes.len());
        let numbers = match Self::parse_seed_numbers(bytes, &lines) {
            Ok(ns) => ns,
            Err(e) => {
                proof {
                    assert(no_seeds_line(s.spec_bytes(), lines@) || seeds_overflow_in(
                        s.spec_bytes(),
                        lines@,
                    ));
                    assert(line_decomposition(
                        s.spec_bytes(),
                        0,
                        s.spec_bytes().len() as int,
                        lines@,
                    ));
                    assert(almanac_rejected(s.spec_bytes(), e, true));
                }
                return Err(e);
            },
        };
        let ghost ns0 = numbers@;
        let ranges = match Self::parse_values1(numbers) {
            Ok(rs) => rs,
            Err(e) => {
                proof {
                    let i = choose|i: int| #[trigger] seeds_in_lines(bytes@, lines@, i, ns0);
                    assert(seeds_in_lines(s.spec_bytes(), lines@, i, ns0));
                    assert(line_decomposition(
                        s.spec_bytes(),
                        0,
                        s.spec_bytes().len() as int,
                        lines@,
                    ));
                    assert(almanac_rejects(s.spec_bytes(), lines@, e, true));
                    assert(almanac_rejected(s.spec_bytes(), e, true));
                }
                return Err(e);
            },
        };
        let stages = match Self::parse_maps(bytes, &lines) {
            Ok(ss) => ss,
            Err(e) => {
                proof {
                    if e == Error::MalformedInput {
                        assert(triple_overflow_in(s.spec_bytes(), lines@));
                    } else if e == Error::InvalidRange {
                        assert(bad_group_in(s.spec_bytes(), lines@));
                    } else {
                        assert(overlap_group_in(s.spec_bytes(), lines@));
                    }
                    assert(line_decomposition(
                        s.spec_bytes(),
                        0,
                        s.spec_bytes().len() as int,
                        lines@,
                    ));
                    assert(almanac_rejected(s.spec_bytes(), e, true));
                }
                return Err(e);
            },
        };
        proof {
            let i = choose|i: int| #[trigger] seeds_in_lines(bytes@, lines@, i, ns0);
            assert(seeds_of_text(s.spec_bytes(), lines@, i, ns0));
            assert(text_stage_groups(s.spec_bytes(), lines@) == text_stage_groups(bytes@, lines@));
            assert(stages_realize(s.spec_bytes(), lines@, stages@));
            assert(ranges.to_set() =~= Set::new(
                |w: int| exists|q: int| 0 <= q < ns0.len() && (#[trigger] ns0[q]) == w,
            ));
        }
        Ok(Almanac { ranges, stages, next: 0 })
    }

    /// Reads the text with the seed numbers taken in pairs, each pair naming
    /// a `(start, length)` range: the built ranges hold exactly the values
    /// the pairs of the first `seeds:` line span.
    pub fn from2(s: &str) -> (r: Result<Almanac, Error>)
        ensures
            match r {
                Ok(a) => a.wf() && a.next == 0 && exists|
                    ls: Seq<(usize, usize)>,
                    i: int,
                    ns: Seq<u64>,
                |
                    #[trigger] seeds_of_text(s.spec_bytes(), ls, i, ns) && a.ranges.to_set()
                        == Set::new(
                        |w: int|
                            exists|q: int|
                                0 <= 2 * q + 1 < ns.len() && (#[trigger] ns[2 * q]) <= w < ns[2
                                    * q] + ns[2 * q + 1],
                    ) && stages_realize(s.spec_bytes(), ls, a.stages@),
                Err(e) => almanac_rejected(s.spec_bytes(), e, false),
            },
    {
        let bytes = s.as_bytes();
        let lines = line_spans(bytes, 0, bytes.len());
        let numbers = match Self::parse_seed_numbers(bytes, &lines) {
            Ok(ns) => ns,
            Err(e) => {
                proof {
                    assert(no_seeds_line(s.spec_bytes(), lines@) || seeds_overflow_in(
                        s.spec_bytes(),
                        lines@,
                    ));
                    assert(line_decomposition(
                        s.spec_bytes(),
                        0,
                        s.spec_bytes().len() as int,
                        lines@,
                    ));
                    assert(almanac_rejected(s.spec_bytes(), e, false));
                }
                return Err(e);
            },
        };
        let ghost ns0 = numbers@;
        let ranges = match Self::parse_values2(numbers) {
            Ok(rs) => rs,
            Err(e) => {
                proof {
                    let i = choose|i: int| #[trigger] seeds_in_lines(bytes@, lines@, i, ns0);
                    assert(seeds_in_lines(s.spec_bytes(), lines@, i, ns0));
                    assert(line_decomposition(
                        s.spec_bytes(),
                        0,
                        s.spec_bytes().len() as int,
                        lines@,
                    ));
                    assert(almanac_rejects(s.spec_bytes(), lines@, e, false));
                    assert(almanac_rejected(s.spec_bytes(), e, false));
                }
                return Err(e);
            },
        };
        let stages = match Self::parse_maps(bytes, &lines) {
            Ok(ss) => ss,
            Err(e) => {
                proof {
                    if e == Error::MalformedInput {
                        assert(triple_overflow_in(s.spec_bytes(), lines@));
                    } else if e == Error::InvalidRange {
                        assert(bad_group_in(s.spec_bytes(), lines@));
                    } else {
                        assert(overlap_group_in(s.spec_bytes(), lines@));
                    }
                    assert(line_decomposition(
                        s.spec_bytes(),
                        0,
                        s.spec_bytes().len() as int,
                        lines@,
                    ));
                    assert(almanac_rejected(s.spec_bytes(), e, false));
                }
                return Err(e);
            },
        };
        proof {
            let i = choose|i: int| #[trigger] seeds_in_lines(bytes@, lines@, i, ns0);
            assert(seeds_of_text(s.spec_bytes(), lines@, i, ns0));
            assert(text_stage_groups(s.spec_bytes(), lines@) == text_stage_groups(bytes@, lines@));
            assert(stages_realize(s.spec_bytes(), lines@, stages@));
            assert(ranges.to_set() =~= Set::new(
                |w: int|
                    exists|q: int|
                        0 <= 2 * q + 1 < ns0.len() && (#[trigger] ns0[2 * q]) <= w < ns0[2 * q]
                            + ns0[2 * q + 1],
            ));
        }
        Ok(Almanac { ranges, stages, next: 0 })
    }

    /// The numbers of the first `seeds:` line.
    fn parse_seed_numbers(bytes: &[u8], lines: &Vec<(usize, usize)>) -> (r: Result<Vec<u64>, Error>)
        requires
            forall|i: int|
                0 <= i < lines@.len() ==> (#[trigger] lines@[i]).0 <= lines@[i].1 <= bytes@.len(),
        ensures
            match r {
                Ok(ns) => has_seed_numbers(bytes@, lines@, ns@),
                Err(e) => e == Error::MalformedInput && (no_seeds_line(bytes@, lines@)
                    || seeds_overflow_in(bytes@, lines@)),
            },
    {
        let mut li: usize = 0;
        while li < lines.len()
            invariant
                0 <= li <= lines@.len(),
                forall|i: int|
                    0 <= i < lines@.len() ==> (#[trigger] lines@[i]).0 <= lines@[i].1
                        <= bytes@.len(),
                forall|j: int|
                    0 <= j < li ==> !is_seeds_line(
                        bytes@,
                        (#[trigger] lines@[j]).0 as int,
                        lines@[j].1 as int,
                    ),
            decreases lines@.len() - li,
        {
            let (a, b) = lines[li];
            if b - a >= 7 && bytes[a] == 's' as u8 && bytes[a + 1] == 'e' as u8 && bytes[a + 2]
                == 'e' as u8 && bytes[a + 3] == 'd' as u8 && bytes[a + 4] == 's' as u8 && bytes[a
                + 5] == ':' as u8 && bytes[a + 6] == ' ' as u8 {
                let runs = runs_of(bytes, a + 7, b, ByteClass::Digit);
                let mut numbers: Vec<u64> = Vec::new();
                let mut k: usize = 0;
                while k < runs.len()
                    invariant
                        0 <= k <= runs@.len(),
                        a <= b <= bytes@.len(),
                        a + 7 <= b,
                        li < lines@.len(),
                        a == lines@[li as int].0 && b == lines@[li as int].1,
                        is_seeds_line(bytes@, a as int, b as int),
                        run_decomposition(bytes@, a + 7 as int, b as int, ByteClass::Digit, runs@),
                        forall|i: int|
                            0 <= i < runs@.len() ==> (#[trigger] runs@[i]).0 <= runs@[i].1
                                <= bytes@.len(),
                        numbers@.len() == k,
                        forall|q: int|
                            0 <= q < k ==> (#[trigger] numbers@[q]) == digits_value(
                                bytes@.subrange(runs@[q].0 as int, runs@[q].1 as int),
                            ),
                    decreases runs@.len() - k,
                {
                    let (ra, rb) = runs[k];
                    match parse_u64(bytes, ra, rb) {
                        Some(n) => numbers.push(n),
                        None => {
                            proof {
                                assert(digits_value(bytes@.subrange(ra as int, rb as int))
                                    > u64::MAX);
                                assert(seeds_line_overflows(bytes@, a as int, b as int));
                                assert(is_seeds_line(
                                    bytes@,
                                    lines@[li as int].0 as int,
                                    lines@[li as int].1 as int,
                                ));
                                assert(seeds_line_overflows(
                                    bytes@,
                                    lines@[li as int].0 as int,
                                    lines@[li as int].1 as int,
                                ));
                                assert(seeds_overflow_in(bytes@, lines@));
                            }
                            return Err(Error::MalformedInput);
                        },
                    }
                    k += 1;
                }
                proof {
                    assert(seed_numbers_of_line(bytes@, a as int, b as int, numbers@));
                    assert(seeds_in_lines(bytes@, lines@, li as int, numbers@));
                    assert(has_seed_numbers(bytes@, lines@, numbers@));
                }
                return Ok(numbers);
            }
            li += 1;
        }
        Err(Error::MalformedInput)
    }

    /// Builds the range set of mode one: each number a singleton range.
    pub fn parse_values1(numbers: Vec<u64>) -> (r: Result<RangeSet, Error>)
        ensures
            match r {
                Ok(rs) => rs.wf() && rs.to_set() == Set::new(
                    |w: int|
                        exists|i: int| 0 <= i < numbers@.len() && (#[trigger] numbers@[i]) == w,
                ),
                Err(e) => e == Error::InvalidRange && seed_past_max(numbers@),
            },
    {
        let mut pairs: Vec<(u64, u64)> = Vec::new();
        let mut k: usize = 0;
        while k < numbers.len()
            invariant
                0 <= k <= numbers@.len(),
                pairs@.len() == k,
                forall|i: int| 0 <= i < k ==> (#[trigger] pairs@[i]) == (numbers@[i], 1u64),
            decreases numbers@.len() - k,
        {
            pairs.push((numbers[k], 1));
            k += 1;
        }
        match RangeSet::from_raw(&pairs) {
            Ok(rs) => {
                proof {
                    let singles = Set::new(
                        |w: int|
                            exists|i: int|
                                0 <= i < numbers@.len() && (#[trigger] numbers@[i]) == w,
                    );
                    assert(RangeSet::pairs_set(pairs@) =~= singles) by {
                        assert forall|w: int| RangeSet::pairs_set(pairs@).contains(w)
                            implies singles.contains(w) by {
                            let i = choose|i: int|
                                0 <= i < pairs@.len() && (#[trigger] pairs@[i]).0 <= w
                                    < pairs@[i].0 + pairs@[i].1;
                            assert(numbers@[i] == w);
                        }
                        assert forall|w: int| singles.contains(w)
                            implies RangeSet::pairs_set(pairs@).contains(w) by {
                            let i = choose|i: int|
                                0 <= i < numbers@.len() && (#[trigger] numbers@[i]) == w;
                            assert(pairs@[i].0 <= w < pairs@[i].0 + pairs@[i].1);
                        }
                    }
                }
                Ok(rs)
            },
            Err(e) => {
                proof {
                    let i = choose|i: int|
                        !(0 <= i < pairs@.len() ==> (#[trigger] pairs@[i]).0 + pairs@[i].1
                            <= u64::MAX);
                    assert(numbers@[i] == u64::MAX);
                    assert(seed_past_max(numbers@));
                }
                Err(e)
            },
        }
    }

    /// Builds the range set of mode two: numbers taken in pairs, each a
    /// `(start, length)` range; a trailing odd number is ignored.
    pub fn parse_values2(numbers: Vec<u64>) -> (r: Result<RangeSet, Error>)
        ensures
            match r {
                Ok(rs) => rs.wf() && rs.to_set() == Set::new(
                    |w: int|
                        exists|i: int|
                            0 <= 2 * i + 1 < numbers@.len() && (#[trigger] numbers@[2 * i]) <= w
                                < numbers@[2 * i] + numbers@[2 * i + 1],
                ),
                Err(e) => e == Error::InvalidRange && pair_past_max(numbers@),
            },
    {
        let mut pairs: Vec<(u64, u64)> = Vec::new();
        let mut k: usize = 0;
        while k + 1 < numbers.len()
            invariant
                0 <= k <= numbers@.len() + 1,
                k % 2 == 0,
                pairs@.len() * 2 == k,
                forall|i: int|
                    0 <= i < pairs@.len() ==> 2 * i + 1 < numbers@.len() && (#[trigger] pairs@[i])
                        == (numbers@[2 * i], numbers@[2 * i + 1]),
            decreases numbers@.len() - k,
        {
            pairs.push((numbers[k], numbers[k + 1]));
            k += 2;
        }
        match RangeSet::from_raw(&pairs) {
            Ok(rs) => {
                proof {
                    let bulk = Set::new(
                        |w: int|
                            exists|i: int|
                                0 <= 2 * i + 1 < numbers@.len() && (#[trigger] numbers@[2 * i])
                                    <= w < numbers@[2 * i] + numbers@[2 * i + 1],
                    );
                    assert(RangeSet::pairs_set(pairs@) =~= bulk) by {
                        assert forall|w: int| RangeSet::pairs_set(pairs@).contains(w)
                            implies bulk.contains(w) by {
                            let i = choose|i: int|
                                0 <= i < pairs@.len() && (#[trigger] pairs@[i]).0 <= w
                                    < pairs@[i].0 + pairs@[i].1;
                            assert(numbers@[2 * i] <= w < numbers@[2 * i] + numbers@[2 * i + 1]);
                        }
                        assert forall|w: int| bulk.contains(w)
                            implies RangeSet::pairs_set(pairs@).contains(w) by {
                            let i = choose|i: int|
                                0 <= 2 * i + 1 < numbers@.len() && (#[trigger] numbers@[2 * i])
                                    <= w < numbers@[2 * i] + numbers@[2 * i + 1];
                            assert(pairs@[i].0 <= w < pairs@[i].0 + pairs@[i].1);
                        }
                    }
                }
                Ok(rs)
            },
            Err(e) => {
                proof {
                    let i = choose|i: int|
                        !(0 <= i < pairs@.len() ==> (#[trigger] pairs@[i]).0 + pairs@[i].1
                            <= u64::MAX);
                    assert(numbers@[2 * i] + numbers@[2 * i + 1] > u64::MAX);
                    assert(pair_past_max(numbers@));
                }
                Err(e)
            },
        }
    }

    /// The stage tables, one per `map:` group, in text order: the chain
    /// realizes exactly the text's header-delimited triple groups.
    fn parse_maps(bytes: &[u8], lines: &Vec<(usize, usize)>) -> (r: Result<Vec<StageTable>, Error>)
        requires
            line_decomposition(bytes@, 0, bytes@.len() as int, lines@),
            forall|i: int|
                0 <= i < lines@.len() ==> (#[trigger] lines@[i]).0 <= lines@[i].1 <= bytes@.len(),
        ensures
            match r {
                Ok(ss) => (forall|i: int| 0 <= i < ss@.len() ==> (#[trigger] ss@[i]).wf())
                    && ss@.len() == text_stage_groups(bytes@, lines@).len() && forall|
                    g: int,
                    v: int,
                |
                    0 <= g < ss@.len() ==> #[trigger] ss@[g].map_value(v) == triples_map_value(
                        text_stage_groups(bytes@, lines@)[g],
                        v,
                    ),
                Err(e) => parse_maps_rejects(bytes@, lines@, e),
            },
    {
        let mut stages: Vec<StageTable> = Vec::new();
        let mut current: Vec<(u64, u64, u64)> = Vec::new();
        let ghost mut groups: Seq<Seq<(u64, u64, u64)>> = Seq::empty();
        let mut started = false;
        let mut li: usize = 0;
        while li < lines.len()
            invariant
                0 <= li <= lines@.len(),
                line_decomposition(bytes@, 0, bytes@.len() as int, lines@),
                forall|i: int|
                    0 <= i < lines@.len() ==> (#[trigger] lines@[i]).0 <= lines@[i].1
                        <= bytes@.len(),
                forall|i: int| 0 <= i < stages@.len() ==> (#[trigger] stages@[i]).wf(),
                groups == map_groups(bytes@, lines@, li as int).0,
                current@ == map_groups(bytes@, lines@, li as int).1,
                started == map_groups(bytes@, lines@, li as int).2,
                stages@.len() == groups.len(),
                forall|g: int, v: int|
                    0 <= g < groups.len() ==> #[trigger] stages@[g].map_value(v)
                        == triples_map_value(groups[g], v),
            decreases lines@.len() - li,
        {
            let (a, b) = lines[li];
            let ghost acc = map_groups(bytes@, lines@, li as int);
            if Self::line_has_map_heading(bytes, a, b) {
                if started {
                    match StageTable::from_entries(&current) {
                        Ok(t) => {
                            stages.push(t);
                            proof {
                                groups = groups.push(current@);
                            }
                        },
                        Err(e) => {
                            proof {
                                let g0 = acc.0.len() as int;
                                lemma_map_groups_prefix(
                                    bytes@,
                                    lines@,
                                    li + 1 as int,
                                    lines@.len() as int,
                                );
                                assert(map_groups(bytes@, lines@, li + 1 as int).0[g0]
                                    == current@);
                                assert(map_groups(bytes@, lines@, lines@.len() as int).0[g0]
                                    == current@);
                                assert(text_stage_groups(bytes@, lines@)[g0] == current@);
                                assert(g0 < text_stage_groups(bytes@, lines@).len());
                                if e == Error::InvalidRange {
                                    assert(bad_group_in(bytes@, lines@));
                                } else {
                                    assert(overlap_group_in(bytes@, lines@));
                                }
                            }
                            return Err(e);
                        },
                    }
                    current = Vec::new();
                }
                started = true;
            } else {
                match Self::triple_of_line(bytes, a, b) {
                    Ok(Some(t)) => {
                        proof {
                            let tc = choose|t2: (u64, u64, u64)|
                                triple_line_shape(bytes@, a as int, b as int, t2);
                            let (p1, q1) = choose|pp: int, qq: int|
                                #[trigger] triple_line_parts(bytes@, a as int, b as int, pp, qq, t);
                            assert(line_is_triple(bytes@, a as int, b as int));
                            assert(triple_line_shape(bytes@, a as int, b as int, tc));
                            let (p2, q2) = choose|pp: int, qq: int|
                                #[trigger] triple_line_parts(
                                    bytes@,
                                    a as int,
                                    b as int,
                                    pp,
                                    qq,
                                    tc,
                                );
                            lemma_triple_cells_unique(
                                bytes@,
                                a as int,
                                b as int,
                                p1,
                                q1,
                                p2,
                                q2,
                            );
                            assert(tc == t);
                        }
                        current.push(t);
                        started = true;
                    },
                    Ok(None) => {},
                    Err(e) => {
                        proof {
                            assert(overflowing_triple_line(
                                bytes@,
                                lines@[li as int].0 as int,
                                lines@[li as int].1 as int,
                            ));
                            assert(triple_overflow_in(bytes@, lines@));
                        }
                        return Err(e);
                    },
                }
            }
            li += 1;
        }
        proof {
            assert(lines@.len() as int == li as int);
        }
        if !started {
            return Ok(stages);
        }
        match StageTable::from_entries(&current) {
            Ok(t) => {
                stages.push(t);
                proof {
                    groups = groups.push(current@);
                    assert(text_stage_groups(bytes@, lines@) == groups);
                }
            },
            Err(e) => {
                proof {
                    let g0 = map_groups(bytes@, lines@, lines@.len() as int).0.len() as int;
                    assert(text_stage_groups(bytes@, lines@)[g0] == current@);
                    assert(g0 < text_stage_groups(bytes@, lines@).len());
                    if e == Error::InvalidRange {
                        assert(bad_group_in(bytes@, lines@));
                    } else {
                        assert(overlap_group_in(bytes@, lines@));
                    }
                }
                return Err(e);
            },
        }
        Ok(stages)
    }

    /// Whether the line carries a `map:` heading.
    fn line_has_map_heading(bytes: &[u8], a: usize, b: usize) -> (r: bool)
        requires
            a <= b <= bytes@.len(),
        ensures
            r == is_heading(bytes@, a as int, b as int),
    {
        if b - a < 4 {
            return false;
        }
        let mut p = a;
        while p <= b - 4
            invariant
                a <= p <= b <= bytes@.len(),
                a + 4 <= b,
                forall|p2: int|
                    a <= p2 < p ==> !(#[trigger] bytes@[p2] == 'm' as u8 && bytes@[p2 + 1]
                        == 'a' as u8 && bytes@[p2 + 2] == 'p' as u8 && bytes@[p2 + 3] == ':' as u8),
            decreases b - p,
        {
            if bytes[p] == 'm' as u8 && bytes[p + 1] == 'a' as u8 && bytes[p + 2] == 'p' as u8
                && bytes[p + 3] == ':' as u8 {
                return true;
            }
            p += 1;
        }
        false
    }

    /// Reads a line of exactly three space-separated numbers, if it is one.
    /// A line of another shape is skipped; a number past the `u64` domain is
    /// an error.
    fn triple_of_line(bytes: &[u8], a: usize, b: usize) -> (r: Result<
        Option<(u64, u64, u64)>,
        Error,
    >)
        requires
            a <= b <= bytes@.len(),
        ensures
            match r {
                Ok(Some(t)) => triple_line_shape(bytes@, a as int, b as int, t),
                Ok(None) => !line_is_triple(bytes@, a as int, b as int),
                Err(e) => e == Error::MalformedInput && overflowing_triple_line(
                    bytes@,
                    a as int,
                    b as int,
                ),
            },
    {
        let runs = runs_of(bytes, a, b, ByteClass::Digit);
        if runs.len() != 3 {
            proof {
                if line_is_triple(bytes@, a as int, b as int) {
                    let (p, q) = choose|p: int, q: int|
                        #[trigger] triple_cells(bytes@, a as int, b as int, p, q);
                    lemma_triple_cells_runs(bytes@, a as int, b as int, runs@, p, q);
                }
            }
            return Ok(None);
        }
        let (a0, b0) = runs[0];
        let (a1, b1) = runs[1];
        let (a2, b2) = runs[2];
        if !(a0 == a && b2 == b && b0 + 1 == a1 && b1 + 1 == a2) {
            proof {
                if line_is_triple(bytes@, a as int, b as int) {
                    let (p, q) = choose|p: int, q: int|
                        #[trigger] triple_cells(bytes@, a as int, b as int, p, q);
                    lemma_triple_cells_runs(bytes@, a as int, b as int, runs@, p, q);
                }
            }
            return Ok(None);
        }
        if !(bytes[b0] == ' ' as u8 && bytes[b1] == ' ' as u8) {
            proof {
                if line_is_triple(bytes@, a as int, b as int) {
                    let (p, q) = choose|p: int, q: int|
                        #[trigger] triple_cells(bytes@, a as int, b as int, p, q);
                    lemma_triple_cells_runs(bytes@, a as int, b as int, runs@, p, q);
                }
            }
            return Ok(None);
        }
        proof {
            // the cells of a triple stand established
            assert forall|k: int| a <= k < b && k != b0 && k != b1 implies is_digit(
                #[trigger] bytes@[k],
            ) by {
                if k < b0 {
                    assert(in_class(ByteClass::Digit, bytes@[k]));
                } else if k < b1 {
                    assert(runs@[1].0 <= k < runs@[1].1);
                    assert(in_class(ByteClass::Digit, bytes@[k]));
                } else {
                    assert(runs@[2].0 <= k < runs@[2].1);
                    assert(in_class(ByteClass::Digit, bytes@[k]));
                }
            }
            assert(triple_cells(bytes@, a as int, b as int, b0 as int, b1 as int));
        }
        let d = match parse_u64(bytes, a0, b0) {
            Some(n) => n,
            None => {
                proof {
                    assert(digits_value(bytes@.subrange(a0 as int, b0 as int)) > u64::MAX);
                }
                return Err(Error::MalformedInput);
            },
        };
        let s = match parse_u64(bytes, a1, b1) {
            Some(n) => n,
            None => {
                proof {
                    assert(digits_value(bytes@.subrange(a1 as int, b1 as int)) > u64::MAX);
                }
                return Err(Error::MalformedInput);
            },
        };
        let l = match parse_u64(bytes, a2, b2) {
            Some(n) => n,
            None => {
                proof {
                    assert(digits_value(bytes@.subrange(a2 as int, b2 as int)) > u64::MAX);
                }
                return Err(Error::MalformedInput);
            },
        };
        proof {
            assert(triple_line_parts(bytes@, a as int, b as int, b0 as int, b1 as int, (d, s, l)));
            assert(triple_line_shape(bytes@, a as int, b as int, (d, s, l)));
        }
        Ok(Some((d, s, l)))
    }

    /// Applies the next unapplied stage, if one is left: the ranges become
    /// the image of the old ranges under that stage's map.
    pub fn process(&mut self)
        requires
            old(self).wf(),
        ensures
            final(self).wf(),
            final(self).stages@ == old(self).stages@,
            old(self).next < old(self).stages@.len() ==> final(self).next == old(self).next + 1
                && final(self).ranges.to_set() == old(self).stages@[old(self).next as int].image(
                old(self).ranges.to_set(),
            ),
            old(self).next >= old(self).stages@.len() ==> *final(self) == *old(self),
    {
        if self.next < self.stages.len() {
            let new_ranges = self.ranges.apply_stage(&self.stages[self.next]);
            self.ranges = new_ranges;
            self.next = self.next + 1;
        }
    }

    /// Applies the next `times` stages, stopping at the end of the chain:
    /// the ranges become the chain's image of the old ranges over exactly
    /// the stages that were applied.
    pub fn process_times(&mut self, times: usize)
        requires
            old(self).wf(),
        ensures
            final(self).wf(),
            final(self).stages@ == old(self).stages@,
            final(self).next as int == if old(self).next + times <= old(self).stages@.len() {
                old(self).next + times
            } else {
                old(self).stages@.len() as int
            },
            final(self).ranges.to_set() == stages_image(
                old(self).stages@.subrange(old(self).next as int, final(self).next as int),
                old(self).ranges.to_set(),
            ),
    {
        let ghost init = *self;
        proof {
            assert(init.stages@.subrange(init.next as int, init.next as int)
                =~= Seq::<StageTable>::empty());
        }
        let mut t: usize = 0;
        while t < times
            invariant
                0 <= t <= times,
                self.wf(),
                init.wf(),
                self.stages@ == init.stages@,
                self.next as int == if init.next + t <= init.stages@.len() {
                    init.next + t
                } else {
                    init.stages@.len() as int
                },
                self.ranges.to_set() == stages_image(
                    init.stages@.subrange(init.next as int, self.next as int),
                    init.ranges.to_set(),
                ),
            decreases times - t,
        {
            let ghost prev_next = self.next as int;
            self.process();
            proof {
                if prev_next < init.stages@.len() {
                    assert(init.stages@.subrange(init.next as int, prev_next + 1)
                        =~= init.stages@.subrange(init.next as int, prev_next).push(
                        init.stages@[prev_next],
                    ));
                    lemma_stages_image_push(
                        init.stages@.subrange(init.next as int, prev_next),
                        init.stages@[prev_next],
                        init.ranges.to_set(),
                    );
                }
            }
            t += 1;
        }
    }

    /// The smallest value currently held by the ranges, if any.
    pub fn smallest_number(&self) -> (r: Option<u64>)
        requires
            self.wf(),
        ensures
            match r {
                Option::None => self.ranges.to_set().is_empty(),
                Option::Some(m) => self.ranges.to_set().contains(m as int) && forall|v: int|
                    self.ranges.to_set().contains(v) ==> m as int <= v,
            },
    {
        self.ranges.minimum_start()
    }
}

} // verus!
