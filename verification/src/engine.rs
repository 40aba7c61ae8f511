//! The engine schematic: a grid of digits, dots and symbols.  A number
//! counts as a part number when a symbol touches its bounding box, and a
//! `*` touching exactly two numbers is a gear.

use vstd::prelude::*;
use vstd::string::StringSliceAdditionalSpecFns;
use vstd::utf8::encode_utf8;
use crate::Error;
use crate::sums::sum_of;
use crate::parse::{digits_value, in_class, is_digit, line_decomposition, line_spans, overflowing_run, parse_u64, run_decomposition, runs_of, ByteClass};

verus! {

/// The left edge of a number's bounding box.
pub open spec fn conflict_lo(start: int) -> int {
    if start == 0 {
        0
    } else {
        start - 1
    }
}

/// A symbol span `[ss, se)` touches the bounding box of a number span
/// `[ns, ne)`: the symbol's last or first cell falls within the box.
pub open spec fn spec_adjacent(ns: int, ne: int, ss: int, se: int) -> bool {
    let lo = conflict_lo(ns);
    let hi = ne + 1;
    (lo <= se - 1 < hi) || (lo <= ss < hi)
}

/// A number found in one line: its value and its column span.
#[derive(Debug, Clone, Copy, PartialEq, Eq, Structural)]
pub struct Number {
    pub number: u64,
    pub start: usize,
    pub end: usize,
}

impl Number {
    /// Wraps a value with its column span.
    pub fn new(number: u64, start: usize, end: usize) -> (r: Number)
        ensures
            r.number == number && r.start == start && r.end == end,
    {
        Number { number, start, end }
    }

    /// The bounding box columns `[lo, hi)`: one step left and right of the
    /// number's own span.
    pub fn conflict_range(&self) -> (r: (usize, usize))
        requires
            self.end < usize::MAX,
        ensures
            r.0 == conflict_lo(self.start as int),
            r.1 == self.end + 1,
    {
        let lo = if self.start == 0 {
            0
        } else {
            self.start - 1
        };
        (lo, self.end + 1)
    }

    /// Whether the symbol span touches the number's bounding box.
    pub fn is_adjacent(&self, symbol_match: (usize, usize)) -> (r: bool)
        requires
            self.end < usize::MAX,
            symbol_match.1 >= 1,
        ensures
            r == spec_adjacent(
                self.start as int,
                self.end as int,
                symbol_match.0 as int,
                symbol_match.1 as int,
            ),
    {
        let (lo, hi) = self.conflict_range();
        let last = symbol_match.1 - 1;
        (lo <= last && last < hi) || (lo <= symbol_match.0 && symbol_match.0 < hi)
    }

    /// Whether any of the symbol spans touches the number's bounding box.
    pub fn is_adjacent_list(&self, symbol_matches: &Vec<(usize, usize)>) -> (r: bool)
        requires
            self.end < usize::MAX,
            forall|i: int|
                0 <= i < symbol_matches@.len() ==> (#[trigger] symbol_matches@[i]).1 >= 1,
        ensures
            r == exists|i: int|
                0 <= i < symbol_matches@.len() && spec_adjacent(
                    self.start as int,
                    self.end as int,
                    (#[trigger] symbol_matches@[i]).0 as int,
                    symbol_matches@[i].1 as int,
                ),
    {
        let mut k: usize = 0;
        while k < symbol_matches.len()
            invariant
                0 <= k <= symbol_matches@.len(),
                self.end < usize::MAX,
                forall|i: int|
                    0 <= i < symbol_matches@.len() ==> (#[trigger] symbol_matches@[i]).1 >= 1,
                forall|i: int|
                    0 <= i < k ==> !spec_adjacent(
                        self.start as int,
                        self.end as int,
                        (#[trigger] symbol_matches@[i]).0 as int,
                        symbol_matches@[i].1 as int,
                    ),
            decreases symbol_matches@.len() - k,
        {
            if self.is_adjacent(symbol_matches[k]) {
                return true;
            }
            k += 1;
        }
        false
    }
}

/// A `*` cell with the numbers found to touch it.
#[derive(Debug, Clone, PartialEq)]
pub struct PossibleGear {
    pub index: usize,
    pub adjacents: Vec<u64>,
}

impl PossibleGear {
    /// A `*` at the given column, with nothing counted yet.
    pub fn new(index: usize) -> (r: PossibleGear)
        ensures
            r.index == index,
            r.adjacents@.len() == 0,
    {
        PossibleGear { index, adjacents: Vec::new() }
    }

    /// How many numbers touch the `*`.
    pub fn adjacent_count(&self) -> (r: usize)
        ensures
            r == self.adjacents@.len(),
    {
        self.adjacents.len()
    }

    /// A gear when exactly two numbers touch the `*`, nothing otherwise.
    pub fn into_gear(self) -> (r: Option<Gear>)
        ensures
            match r {
                Option::Some(g) => self.adjacents@.len() == 2 && g.adjacent1
                    == self.adjacents@[0] && g.adjacent2 == self.adjacents@[1],
                Option::None => self.adjacents@.len() != 2,
            },
    {
        if self.adjacents.len() == 2 {
            Some(Gear { adjacent1: self.adjacents[0], adjacent2: self.adjacents[1] })
        } else {
            None
        }
    }

    /// Whether the number touches the `*` cell.
    pub fn is_adjacent(&self, number: &Number) -> (r: bool)
        requires
            number.end < usize::MAX,
            self.index < usize::MAX,
        ensures
            r == spec_adjacent(
                number.start as int,
                number.end as int,
                self.index as int,
                self.index + 1,
            ),
    {
        number.is_adjacent((self.index, self.index + 1))
    }
}

/// Two numbers joined by one `*`.
#[derive(Debug, Clone, Copy, PartialEq, Eq, Structural)]
pub struct Gear {
    pub adjacent1: u64,
    pub adjacent2: u64,
}

impl Gear {
    /// The product of the two joined numbers.
    pub fn ratio(&self) -> (r: u64)
        requires
            self.adjacent1 * self.adjacent2 <= u64::MAX,
        ensures
            r == self.adjacent1 * self.adjacent2,
    {
        self.adjacent1 * self.adjacent2
    }
}

/// Some span of the list touches the number's bounding box.
pub open spec fn adjacent_to_any(n: Number, syms: Seq<(usize, usize)>) -> bool {
    exists|i: int|
        0 <= i < syms.len() && spec_adjacent(
            n.start as int,
            n.end as int,
            (#[trigger] syms[i]).0 as int,
            syms[i].1 as int,
        )
}

/// The number at line `i`, position `j` counts: a symbol of its own line or
/// of a neighbouring line touches its bounding box.
pub open spec fn number_selected(
    nums: Seq<Vec<Number>>,
    syms: Seq<Vec<(usize, usize)>>,
    i: int,
    j: int,
) -> bool {
    adjacent_to_any(nums[i]@[j], syms[i]@) || (i > 0 && adjacent_to_any(nums[i]@[j], syms[i - 1]@))
        || (i + 1 < syms.len() && adjacent_to_any(nums[i]@[j], syms[i + 1]@))
}

/// The values of the counting numbers of line `i` among its first `j`, in
/// order.
pub open spec fn selected_in_line(
    nums: Seq<Vec<Number>>,
    syms: Seq<Vec<(usize, usize)>>,
    i: int,
    j: int,
) -> Seq<u64>
    decreases j,
{
    if j <= 0 {
        Seq::empty()
    } else {
        selected_in_line(nums, syms, i, j - 1) + if number_selected(nums, syms, i, j - 1) {
            seq![nums[i]@[j - 1].number]
        } else {
            Seq::empty()
        }
    }
}

/// The values of the counting numbers of the first `i` lines, in grid order.
pub open spec fn selected_up_to(
    nums: Seq<Vec<Number>>,
    syms: Seq<Vec<(usize, usize)>>,
    i: int,
) -> Seq<u64>
    decreases i,
{
    if i <= 0 {
        Seq::empty()
    } else {
        selected_up_to(nums, syms, i - 1) + selected_in_line(
            nums,
            syms,
            i - 1,
            nums[i - 1]@.len() as int,
        )
    }
}

/// `v` lists exactly the numbers of the text line `s[a..b)`, in order: each
/// is a maximal digit run, given by its columns within the line and its
/// decimal value, and every digit of the line lies in one of them.
pub open spec fn numbers_of_line(s: Seq<u8>, a: int, b: int, v: Seq<Number>) -> bool {
    &&& forall|q: int| 0 <= q < v.len() ==> (#[trigger] v[q]).start < v[q].end <= b - a
    &&& forall|q: int, k: int|
        0 <= q < v.len() && a + (#[trigger] v[q]).start <= k < a + v[q].end ==> is_digit(
            #[trigger] s[k],
        )
    &&& forall|q: int|
        0 <= q < v.len() ==> ((#[trigger] v[q]).start == 0 || !is_digit(s[a + v[q].start - 1]))
    &&& forall|q: int|
        0 <= q < v.len() ==> (a + (#[trigger] v[q]).end == b || !is_digit(s[a + v[q].end]))
    &&& forall|q: int, r: int| 0 <= q < r < v.len() ==> (#[trigger] v[q]).end < (#[trigger] v[r]).start
    &&& forall|k: int|
        a <= k < b && is_digit(#[trigger] s[k]) ==> exists|q: int|
            0 <= q < v.len() && a + (#[trigger] v[q]).start <= k < a + v[q].end
    &&& forall|q: int|
        0 <= q < v.len() ==> (#[trigger] v[q]).number == digits_value(
            s.subrange(a + v[q].start, a + v[q].end),
        )
}

/// `v` lists exactly the symbol spans of the text line `s[a..b)`, in order:
/// each is a maximal run of symbol bytes, given by its columns within the
/// line, and every symbol byte of the line lies in one of them.
pub open spec fn symbols_of_line(s: Seq<u8>, a: int, b: int, v: Seq<(usize, usize)>) -> bool {
    &&& forall|q: int| 0 <= q < v.len() ==> (#[trigger] v[q]).0 < v[q].1 <= b - a
    &&& forall|q: int, k: int|
        0 <= q < v.len() && a + (#[trigger] v[q]).0 <= k < a + v[q].1 ==> in_class(
            ByteClass::Symbol,
            #[trigger] s[k],
        )
    &&& forall|q: int|
        0 <= q < v.len() ==> ((#[trigger] v[q]).0 == 0 || !in_class(
            ByteClass::Symbol,
            s[a + v[q].0 - 1],
        ))
    &&& forall|q: int|
        0 <= q < v.len() ==> (a + (#[trigger] v[q]).1 == b || !in_class(
            ByteClass::Symbol,
            s[a + v[q].1],
        ))
    &&& forall|q: int, r: int| 0 <= q < r < v.len() ==> (#[trigger] v[q]).1 < (#[trigger] v[r]).0
    &&& forall|k: int|
        a <= k < b && in_class(ByteClass::Symbol, #[trigger] s[k]) ==> exists|q: int|
            0 <= q < v.len() && a + (#[trigger] v[q]).0 <= k < a + v[q].1
}

/// `v` lists exactly the columns of the `*` cells of the text line
/// `s[a..b)`, in increasing order.
pub open spec fn stars_of_line(s: Seq<u8>, a: int, b: int, v: Seq<usize>) -> bool {
    &&& forall|q: int| 0 <= q < v.len() ==> (#[trigger] v[q]) < b - a && s[a + v[q]] == '*' as u8
    &&& forall|k: int| a <= k < b && #[trigger] s[k] == '*' as u8 ==> v.contains((k - a) as usize)
    &&& forall|q: int, r: int| 0 <= q < r < v.len() ==> (#[trigger] v[q]) < (#[trigger] v[r])
}

/// Some line of the decomposition holds an overflowing digit run.
pub open spec fn some_line_overflows(s: Seq<u8>, ls: Seq<(usize, usize)>) -> bool {
    exists|i: int|
        0 <= i < ls.len() && overflowing_run(s, (#[trigger] ls[i]).0 as int, ls[i].1 as int)
}

/// The ratios cannot be summed in `u64`: the total, or a single product,
/// is past the domain.
pub open spec fn ratios_past_max(gs: Seq<Gear>) -> bool {
    ratio_sum(gs) > u64::MAX || exists|i: int|
        0 <= i < gs.len() && (#[trigger] gs[i]).adjacent1 * gs[i].adjacent2 > u64::MAX
}

/// The schematic text `s`, split into its lines, scanned line by line:
/// `nums` holds each line's numbers and `syms` each line's symbol spans.
pub open spec fn scanned_numbers_and_symbols(
    s: Seq<u8>,
    ls: Seq<(usize, usize)>,
    nums: Seq<Vec<Number>>,
    syms: Seq<Vec<(usize, usize)>>,
) -> bool {
    &&& line_decomposition(s, 0, s.len() as int, ls)
    &&& nums.len() == ls.len()
    &&& syms.len() == ls.len()
    &&& forall|i: int|
        0 <= i < ls.len() ==> numbers_of_line(s, (#[trigger] ls[i]).0 as int, ls[i].1 as int, nums[i]@)
    &&& forall|i: int|
        0 <= i < ls.len() ==> symbols_of_line(s, (#[trigger] ls[i]).0 as int, ls[i].1 as int, syms[i]@)
}

/// The schematic text `s`, split into its lines, scanned line by line:
/// `nums` holds each line's numbers and `stars` each line's `*` columns.
pub open spec fn scanned_numbers_and_stars(
    s: Seq<u8>,
    ls: Seq<(usize, usize)>,
    nums: Seq<Vec<Number>>,
    stars: Seq<Vec<usize>>,
) -> bool {
    &&& line_decomposition(s, 0, s.len() as int, ls)
    &&& nums.len() == ls.len()
    &&& stars.len() == ls.len()
    &&& forall|i: int|
        0 <= i < ls.len() ==> numbers_of_line(s, (#[trigger] ls[i]).0 as int, ls[i].1 as int, nums[i]@)
    &&& forall|i: int|
        0 <= i < ls.len() ==> stars_of_line(s, (#[trigger] ls[i]).0 as int, ls[i].1 as int, stars[i]@)
}

/// The values, among the first `j` numbers of the line, of those touching a
/// `*` at column `x`, in order.
pub open spec fn adjacent_values(ns: Seq<Number>, x: int, j: int) -> Seq<u64>
    decreases j,
{
    if j <= 0 {
        Seq::empty()
    } else {
        adjacent_values(ns, x, j - 1) + if spec_adjacent(
            ns[j - 1].start as int,
            ns[j - 1].end as int,
            x,
            x + 1,
        ) {
            seq![ns[j - 1].number]
        } else {
            Seq::empty()
        }
    }
}

/// Every number value touching a `*` at line `i`, column `x`: its own line
/// first, then the line above, then the line below.
pub open spec fn star_adjacents(nums: Seq<Vec<Number>>, i: int, x: int) -> Seq<u64> {
    adjacent_values(nums[i]@, x, nums[i]@.len() as int) + (if i > 0 {
        adjacent_values(nums[i - 1]@, x, nums[i - 1]@.len() as int)
    } else {
        Seq::empty()
    }) + (if i + 1 < nums.len() {
        adjacent_values(nums[i + 1]@, x, nums[i + 1]@.len() as int)
    } else {
        Seq::empty()
    })
}

/// The gears among the first `j` stars of line `i`: each `*` that exactly
/// two numbers touch, with those two values.
pub open spec fn gears_in_line(
    nums: Seq<Vec<Number>>,
    stars: Seq<Vec<usize>>,
    i: int,
    j: int,
) -> Seq<Gear>
    decreases j,
{
    if j <= 0 {
        Seq::empty()
    } else {
        let adj = star_adjacents(nums, i, stars[i]@[j - 1] as int);
        gears_in_line(nums, stars, i, j - 1) + if adj.len() == 2 {
            seq![Gear { adjacent1: adj[0], adjacent2: adj[1] }]
        } else {
            Seq::empty()
        }
    }
}

/// The gears of the first `i` lines, in grid order.
pub open spec fn gears_up_to(nums: Seq<Vec<Number>>, stars: Seq<Vec<usize>>, i: int) -> Seq<Gear>
    decreases i,
{
    if i <= 0 {
        Seq::empty()
    } else {
        gears_up_to(nums, stars, i - 1) + gears_in_line(
            nums,
            stars,
            i - 1,
            stars[i - 1]@.len() as int,
        )
    }
}

/// The sum of the gears' ratios.
pub open spec fn ratio_sum(s: Seq<Gear>) -> int
    decreases s.len(),
{
    if s.len() == 0 {
        0
    } else {
        ratio_sum(s.drop_last()) + s.last().adjacent1 * s.last().adjacent2
    }
}

/// A prefix of the gears sums to no more of the ratios than the whole.
proof fn lemma_ratio_sum_take(s: Seq<Gear>, k: int)
    requires
        0 <= k <= s.len(),
    ensures
        ratio_sum(s.take(k)) <= ratio_sum(s),
    decreases s.len() - k,
{
    if k == s.len() {
        assert(s.take(k) =~= s);
    } else {
        assert(s.take(k + 1).drop_last() =~= s.take(k));
        vstd::arithmetic::mul::lemma_mul_nonnegative(
            s[k].adjacent1 as int,
            s[k].adjacent2 as int,
        );
        lemma_ratio_sum_take(s, k + 1);
    }
}

/// The schematic grid, kept as its text.
#[derive(Debug, Clone, PartialEq)]
pub struct Engine {
    pub schematic: String,
}

impl Engine {
    /// The schematic text as the byte string the scanners walk.
    pub open spec fn text_bytes(self) -> Seq<u8> {
        encode_utf8(self.schematic@)
    }

    /// Wraps the schematic text.
    pub fn new(schematic: String) -> (r: Engine)
        ensures
            r.schematic@ == schematic@,
    {
        Engine { schematic }
    }

    /// The numbers of `bytes[a..b)`, with their column spans within it:
    /// the maximal digit runs of the region, in order, each with its value.
    fn line_numbers(bytes: &[u8], a: usize, b: usize) -> (r: Result<Vec<Number>, Error>)
        requires
            a <= b <= bytes@.len(),
        ensures
            match r {
                Ok(v) => numbers_of_line(bytes@, a as int, b as int, v@),
                Err(e) => e == Error::MalformedInput && overflowing_run(bytes@, a as int, b as int),
            },
    {
        let runs = runs_of(bytes, a, b, ByteClass::Digit);
        let mut numbers: Vec<Number> = Vec::new();
        let mut k: usize = 0;
        while k < runs.len()
            invariant
                0 <= k <= runs@.len(),
                a <= b <= bytes@.len(),
                run_decomposition(bytes@, a as int, b as int, ByteClass::Digit, runs@),
                numbers@.len() == k,
                forall|q: int|
                    0 <= q < k ==> (#[trigger] numbers@[q]).start + a == runs@[q].0
                        && numbers@[q].end + a == runs@[q].1 && numbers@[q].number == digits_value(
                        bytes@.subrange(runs@[q].0 as int, runs@[q].1 as int),
                    ),
            decreases runs@.len() - k,
        {
            let (ra, rb) = runs[k];
            match parse_u64(bytes, ra, rb) {
                Some(n) => numbers.push(Number::new(n, ra - a, rb - a)),
                None => {
                    proof {
                        // the failing run is a maximal digit run whose value
                        // does not fit
                        assert(forall|k2: int|
                            ra <= k2 < rb ==> in_class(ByteClass::Digit, #[trigger] bytes@[k2]));
                        assert forall|i: int|
                            0 <= i < rb - ra implies is_digit(
                            #[trigger] bytes@.subrange(ra as int, rb as int)[i]) by {
                            assert(bytes@.subrange(ra as int, rb as int)[i] == bytes@[ra + i]);
                        }
                        assert(ra as int == a || !is_digit(bytes@[ra - 1]));
                        assert(rb as int == b || !is_digit(bytes@[rb as int]));
                        assert(digits_value(bytes@.subrange(ra as int, rb as int)) > u64::MAX);
                    }
                    return Err(Error::MalformedInput);
                },
            }
            k += 1;
        }
        proof {
            assert forall|q: int, k2: int|
                0 <= q < numbers@.len() && a + (#[trigger] numbers@[q]).start <= k2 < a
                    + numbers@[q].end implies is_digit(#[trigger] bytes@[k2]) by {
                assert(in_class(ByteClass::Digit, bytes@[k2]));
            }
            assert forall|k2: int| a <= k2 < b && is_digit(#[trigger] bytes@[k2])
                implies exists|q: int|
                0 <= q < numbers@.len() && a + (#[trigger] numbers@[q]).start <= k2 < a
                    + numbers@[q].end by {
                assert(in_class(ByteClass::Digit, bytes@[k2]));
                let i = choose|i: int|
                    0 <= i < runs@.len() && (#[trigger] runs@[i]).0 <= k2 < runs@[i].1;
                assert(a + numbers@[i].start <= k2 < a + numbers@[i].end);
            }
        }
        Ok(numbers)
    }

    /// The symbol spans of `bytes[a..b)`, as column spans within it: the
    /// maximal symbol runs of the region, shifted to start at column zero.
    fn line_symbols(bytes: &[u8], a: usize, b: usize) -> (r: Vec<(usize, usize)>)
        requires
            a <= b <= bytes@.len(),
        ensures
            symbols_of_line(bytes@, a as int, b as int, r@),
    {
        let runs = runs_of(bytes, a, b, ByteClass::Symbol);
        let mut syms: Vec<(usize, usize)> = Vec::new();
        let mut k: usize = 0;
        while k < runs.len()
            invariant
                0 <= k <= runs@.len(),
                a <= b <= bytes@.len(),
                run_decomposition(bytes@, a as int, b as int, ByteClass::Symbol, runs@),
                syms@.len() == k,
                forall|i: int|
                    0 <= i < k ==> (#[trigger] syms@[i]).0 + a == runs@[i].0 && syms@[i].1 + a
                        == runs@[i].1,
            decreases runs@.len() - k,
        {
            let (ra, rb) = runs[k];
            syms.push((ra - a, rb - a));
            k += 1;
        }
        proof {
            assert forall|k2: int| a <= k2 < b && in_class(
                ByteClass::Symbol,
                #[trigger] bytes@[k2],
            ) implies exists|i: int|
                0 <= i < syms@.len() && a + (#[trigger] syms@[i]).0 <= k2 < a + syms@[i].1 by {
                let i = choose|i: int|
                    0 <= i < runs@.len() && (#[trigger] runs@[i]).0 <= k2 < runs@[i].1;
                assert(a + syms@[i].0 <= k2 < a + syms@[i].1);
            }
        }
        syms
    }

    /// The columns of the `*` cells of `bytes[a..b)`, in order.
    fn line_stars(bytes: &[u8], a: usize, b: usize) -> (r: Vec<usize>)
        requires
            a <= b <= bytes@.len(),
        ensures
            stars_of_line(bytes@, a as int, b as int, r@),
    {
        let mut stars: Vec<usize> = Vec::new();
        let mut p = a;
        while p < b
            invariant
                a <= p <= b <= bytes@.len(),
                forall|i: int|
                    0 <= i < stars@.len() ==> (#[trigger] stars@[i]) < p - a && bytes@[a
                        + stars@[i]] == '*' as u8,
                forall|k: int|
                    a <= k < p && #[trigger] bytes@[k] == '*' as u8 ==> stars@.contains(
                        (k - a) as usize,
                    ),
                forall|i: int, j: int|
                    0 <= i < j < stars@.len() ==> (#[trigger] stars@[i]) < (#[trigger] stars@[j]),
            decreases b - p,
        {
            let ghost pre = stars@;
            if bytes[p] == '*' as u8 {
                stars.push(p - a);
            }
            proof {
                assert forall|k: int| a <= k < p + 1 && #[trigger] bytes@[k] == '*' as u8
                    implies stars@.contains((k - a) as usize) by {
                    if k < p {
                        assert(pre.contains((k - a) as usize));
                        let i = choose|i: int| 0 <= i < pre.len() && pre[i] == ((k - a) as usize);
                        assert(stars@[i] == ((k - a) as usize));
                    } else {
                        assert(stars@[stars@.len() - 1] == ((k - a) as usize));
                    }
                }
            }
            p += 1;
        }
        stars
    }

    /// The part numbers of the schematic: every number whose bounding box a
    /// symbol touches, in its own line or the line above or below, read in
    /// grid order.  The returned values are exactly the selection rule
    /// applied to the text's scanned lines; a number past the `u64` domain
    /// is an error.
    pub fn part_numbers(&self) -> (r: Result<Vec<u64>, Error>)
        ensures
            match r {
                Ok(v) => exists|
                    ls: Seq<(usize, usize)>,
                    nums: Seq<Vec<Number>>,
                    syms: Seq<Vec<(usize, usize)>>,
                |
                    #[trigger] scanned_numbers_and_symbols(self.text_bytes(), ls, nums, syms)
                        && v@ == selected_up_to(nums, syms, nums.len() as int),
                Err(e) => e == Error::MalformedInput && (self.text_bytes().len() >= usize::MAX
                    || exists|ls: Seq<(usize, usize)>|
                    #[trigger] line_decomposition(
                        self.text_bytes(),
                        0,
                        self.text_bytes().len() as int,
                        ls,
                    ) && some_line_overflows(self.text_bytes(), ls)),
            },
    {
        let st: &str = self.schematic.as_str();
        let bytes = st.as_bytes();
        proof {
            assert(bytes@ == self.text_bytes());
        }
        if bytes.len() == usize::MAX {
            return Err(Error::MalformedInput);
        }
        let lines = line_spans(bytes, 0, bytes.len());
        let mut nums: Vec<Vec<Number>> = Vec::new();
        let mut syms: Vec<Vec<(usize, usize)>> = Vec::new();
        let mut li: usize = 0;
        while li < lines.len()
            invariant
                0 <= li <= lines@.len(),
                bytes@ == self.text_bytes(),
                line_decomposition(bytes@, 0, bytes@.len() as int, lines@),
                forall|i: int|
                    0 <= i < lines@.len() ==> (#[trigger] lines@[i]).0 <= lines@[i].1
                        <= bytes@.len(),
                bytes@.len() < usize::MAX,
                nums@.len() == li,
                syms@.len() == li,
                forall|i: int|
                    0 <= i < li ==> numbers_of_line(
                        bytes@,
                        (#[trigger] lines@[i]).0 as int,
                        lines@[i].1 as int,
                        nums@[i]@,
                    ),
                forall|i: int|
                    0 <= i < li ==> symbols_of_line(
                        bytes@,
                        (#[trigger] lines@[i]).0 as int,
                        lines@[i].1 as int,
                        syms@[i]@,
                    ),
                forall|i: int, j: int|
                    0 <= i < nums@.len() && 0 <= j < nums@[i]@.len() ==> (
                    #[trigger] nums@[i]@[j]).end < usize::MAX,
                forall|i: int, j: int|
                    0 <= i < syms@.len() && 0 <= j < syms@[i]@.len() ==> (
                    #[trigger] syms@[i]@[j]).1 >= 1,
            decreases lines@.len() - li,
        {
            let (a, b) = lines[li];
            match Self::line_numbers(bytes, a, b) {
                Ok(v) => nums.push(v),
                Err(e) => {
                    proof {
                        assert(overflowing_run(bytes@, lines@[li as int].0 as int, lines@[li as int].1 as int));
                        assert(some_line_overflows(bytes@, lines@));
                    }
                    return Err(e);
                },
            }
            syms.push(Self::line_symbols(bytes, a, b));
            li += 1;
        }
        let out = Self::select_part_numbers(&nums, &syms);
        proof {
            assert(scanned_numbers_and_symbols(self.text_bytes(), lines@, nums@, syms@));
            assert(out@ == selected_up_to(nums@, syms@, nums@.len() as int));
        }
        Ok(out)
    }

    /// Picks, in grid order, every number a symbol touches: exactly the
    /// part-number selection rule, over the scanned lines.
    pub fn select_part_numbers(nums: &Vec<Vec<Number>>, syms: &Vec<Vec<(usize, usize)>>) -> (r:
        Vec<u64>)
        requires
            nums@.len() == syms@.len(),
            forall|p: int, j: int|
                0 <= p < nums@.len() && 0 <= j < nums@[p]@.len() ==> (
                #[trigger] nums@[p]@[j]).end < usize::MAX,
            forall|p: int, j: int|
                0 <= p < syms@.len() && 0 <= j < syms@[p]@.len() ==> (
                #[trigger] syms@[p]@[j]).1 >= 1,
        ensures
            r@ == selected_up_to(nums@, syms@, nums@.len() as int),
    {
        let mut out: Vec<u64> = Vec::new();
        let mut i: usize = 0;
        while i < nums.len()
            invariant
                0 <= i <= nums@.len(),
                nums@.len() == syms@.len(),
                forall|p: int, j: int|
                    0 <= p < nums@.len() && 0 <= j < nums@[p]@.len() ==> (
                    #[trigger] nums@[p]@[j]).end < usize::MAX,
                forall|p: int, j: int|
                    0 <= p < syms@.len() && 0 <= j < syms@[p]@.len() ==> (
                    #[trigger] syms@[p]@[j]).1 >= 1,
                out@ == selected_up_to(nums@, syms@, i as int),
            decreases nums@.len() - i,
        {
            let mut j: usize = 0;
            while j < nums[i].len()
                invariant
                    0 <= i < nums@.len(),
                    0 <= j <= nums@[i as int]@.len(),
                    nums@.len() == syms@.len(),
                    forall|p: int, q: int|
                        0 <= p < nums@.len() && 0 <= q < nums@[p]@.len() ==> (
                        #[trigger] nums@[p]@[q]).end < usize::MAX,
                    forall|p: int, q: int|
                        0 <= p < syms@.len() && 0 <= q < syms@[p]@.len() ==> (
                        #[trigger] syms@[p]@[q]).1 >= 1,
                    out@ == selected_up_to(nums@, syms@, i as int) + selected_in_line(
                        nums@,
                        syms@,
                        i as int,
                        j as int,
                    ),
                decreases nums@[i as int]@.len() - j,
            {
                let n = nums[i][j];
                let mut adj = n.is_adjacent_list(&syms[i]);
                if !adj && i > 0 {
                    adj = n.is_adjacent_list(&syms[i - 1]);
                }
                if !adj && i < syms.len() - 1 {
                    adj = n.is_adjacent_list(&syms[i + 1]);
                }
                proof {
                    assert(adj == number_selected(nums@, syms@, i as int, j as int));
                }
                if adj {
                    out.push(n.number);
                    proof {
                        assert(out@ =~= selected_up_to(nums@, syms@, i as int) + selected_in_line(
                            nums@,
                            syms@,
                            i as int,
                            j + 1 as int,
                        ));
                    }
                } else {
                    proof {
                        assert(out@ =~= selected_up_to(nums@, syms@, i as int) + selected_in_line(
                            nums@,
                            syms@,
                            i as int,
                            j + 1 as int,
                        ));
                    }
                }
                j += 1;
            }
            proof {
                assert(out@ =~= selected_up_to(nums@, syms@, i + 1 as int));
            }
            i += 1;
        }
        out
    }

    /// The sum of the part numbers.  A number or a sum past the `u64`
    /// domain is an error.
    pub fn part_numbers_sum(&self) -> (r: Result<u64, Error>)
        ensures
            match r {
                Ok(t) => exists|
                    ls: Seq<(usize, usize)>,
                    nums: Seq<Vec<Number>>,
                    syms: Seq<Vec<(usize, usize)>>,
                |
                    #[trigger] scanned_numbers_and_symbols(self.text_bytes(), ls, nums, syms) && t
                        == sum_of(selected_up_to(nums, syms, nums.len() as int)),
                Err(e) => e == Error::MalformedInput && (self.text_bytes().len() >= usize::MAX
                    || (exists|ls: Seq<(usize, usize)>|
                    #[trigger] line_decomposition(
                        self.text_bytes(),
                        0,
                        self.text_bytes().len() as int,
                        ls,
                    ) && some_line_overflows(self.text_bytes(), ls)) || (exists|
                    ls: Seq<(usize, usize)>,
                    nums: Seq<Vec<Number>>,
                    syms: Seq<Vec<(usize, usize)>>,
                |
                    #[trigger] scanned_numbers_and_symbols(self.text_bytes(), ls, nums, syms)
                        && sum_of(selected_up_to(nums, syms, nums.len() as int)) > u64::MAX)),
            },
    {
        let numbers = match self.part_numbers() {
            Ok(v) => v,
            Err(e) => {
                return Err(e);
            },
        };
        let total = crate::sums::sum_values(&numbers);
        proof {
            let (ls, nums, syms) = choose|
                ls: Seq<(usize, usize)>,
                nums: Seq<Vec<Number>>,
                syms: Seq<Vec<(usize, usize)>>,
            |
                #[trigger] scanned_numbers_and_symbols(self.text_bytes(), ls, nums, syms)
                    && numbers@ == selected_up_to(nums, syms, nums.len() as int);
            if total is Ok {
                assert(scanned_numbers_and_symbols(self.text_bytes(), ls, nums, syms)
                    && total->Ok_0 == sum_of(selected_up_to(nums, syms, nums.len() as int)));
            } else {
                assert(scanned_numbers_and_symbols(self.text_bytes(), ls, nums, syms)
                    && sum_of(selected_up_to(nums, syms, nums.len() as int)) > u64::MAX);
            }
        }
        total
    }

    /// The gears of the schematic: every `*` that exactly two numbers touch,
    /// with those numbers, in grid order.  The returned gears are exactly
    /// the gear rule applied to the text's scanned lines; a number past the
    /// `u64` domain is an error.
    pub fn gears(&self) -> (r: Result<Vec<Gear>, Error>)
        ensures
            match r {
                Ok(v) => exists|
                    ls: Seq<(usize, usize)>,
                    nums: Seq<Vec<Number>>,
                    stars: Seq<Vec<usize>>,
                |
                    #[trigger] scanned_numbers_and_stars(self.text_bytes(), ls, nums, stars)
                        && v@ == gears_up_to(nums, stars, nums.len() as int),
                Err(e) => e == Error::MalformedInput && (self.text_bytes().len() >= usize::MAX
                    || exists|ls: Seq<(usize, usize)>|
                    #[trigger] line_decomposition(
                        self.text_bytes(),
                        0,
                        self.text_bytes().len() as int,
                        ls,
                    ) && some_line_overflows(self.text_bytes(), ls)),
            },
    {
        let st: &str = self.schematic.as_str();
        let bytes = st.as_bytes();
        proof {
            assert(bytes@ == self.text_bytes());
        }
        if bytes.len() == usize::MAX {
            return Err(Error::MalformedInput);
        }
        let lines = line_spans(bytes, 0, bytes.len());
        let mut nums: Vec<Vec<Number>> = Vec::new();
        let mut stars: Vec<Vec<usize>> = Vec::new();
        let mut li: usize = 0;
        while li < lines.len()
            invariant
                0 <= li <= lines@.len(),
                bytes@ == self.text_bytes(),
                line_decomposition(bytes@, 0, bytes@.len() as int, lines@),
                forall|i: int|
                    0 <= i < lines@.len() ==> (#[trigger] lines@[i]).0 <= lines@[i].1
                        <= bytes@.len(),
                bytes@.len() < usize::MAX,
                nums@.len() == li,
                stars@.len() == li,
                forall|i: int|
                    0 <= i < li ==> numbers_of_line(
                        bytes@,
                        (#[trigger] lines@[i]).0 as int,
                        lines@[i].1 as int,
                        nums@[i]@,
                    ),
                forall|i: int|
                    0 <= i < li ==> stars_of_line(
                        bytes@,
                        (#[trigger] lines@[i]).0 as int,
                        lines@[i].1 as int,
                        stars@[i]@,
                    ),
                forall|i: int, j: int|
                    0 <= i < nums@.len() && 0 <= j < nums@[i]@.len() ==> (
                    #[trigger] nums@[i]@[j]).end < usize::MAX,
                forall|i: int, j: int|
                    0 <= i < stars@.len() && 0 <= j < stars@[i]@.len() ==> (
                    #[trigger] stars@[i]@[j]) < usize::MAX,
            decreases lines@.len() - li,
        {
            let (a, b) = lines[li];
            match Self::line_numbers(bytes, a, b) {
                Ok(v) => nums.push(v),
                Err(e) => {
                    proof {
                        assert(overflowing_run(
                            bytes@,
                            lines@[li as int].0 as int,
                            lines@[li as int].1 as int,
                        ));
                        assert(some_line_overflows(bytes@, lines@));
                    }
                    return Err(e);
                },
            }
            stars.push(Self::line_stars(bytes, a, b));
            li += 1;
        }
        let out = Self::select_gears(&nums, &stars);
        proof {
            assert(scanned_numbers_and_stars(self.text_bytes(), lines@, nums@, stars@));
            assert(out@ == gears_up_to(nums@, stars@, nums@.len() as int));
        }
        Ok(out)
    }

    /// Picks, in grid order, every `*` that exactly two numbers touch:
    /// exactly the gear rule, over the scanned lines.
    pub fn select_gears(nums: &Vec<Vec<Number>>, stars: &Vec<Vec<usize>>) -> (r: Vec<Gear>)
        requires
            nums@.len() == stars@.len(),
            forall|p: int, j: int|
                0 <= p < nums@.len() && 0 <= j < nums@[p]@.len() ==> (
                #[trigger] nums@[p]@[j]).end < usize::MAX,
            forall|p: int, j: int|
                0 <= p < stars@.len() && 0 <= j < stars@[p]@.len() ==> (
                #[trigger] stars@[p]@[j]) < usize::MAX,
        ensures
            r@ == gears_up_to(nums@, stars@, nums@.len() as int),
    {
        let mut gears: Vec<Gear> = Vec::new();
        let mut i: usize = 0;
        while i < stars.len()
            invariant
                0 <= i <= stars@.len(),
                nums@.len() == stars@.len(),
                forall|p: int, j: int|
                    0 <= p < nums@.len() && 0 <= j < nums@[p]@.len() ==> (
                    #[trigger] nums@[p]@[j]).end < usize::MAX,
                forall|p: int, j: int|
                    0 <= p < stars@.len() && 0 <= j < stars@[p]@.len() ==> (
                    #[trigger] stars@[p]@[j]) < usize::MAX,
                gears@ == gears_up_to(nums@, stars@, i as int),
            decreases stars@.len() - i,
        {
            let mut j: usize = 0;
            while j < stars[i].len()
                invariant
                    0 <= i < stars@.len(),
                    0 <= j <= stars@[i as int]@.len(),
                    nums@.len() == stars@.len(),
                    forall|p: int, q: int|
                        0 <= p < nums@.len() && 0 <= q < nums@[p]@.len() ==> (
                        #[trigger] nums@[p]@[q]).end < usize::MAX,
                    forall|p: int, q: int|
                        0 <= p < stars@.len() && 0 <= q < stars@[p]@.len() ==> (
                        #[trigger] stars@[p]@[q]) < usize::MAX,
                    gears@ == gears_up_to(nums@, stars@, i as int) + gears_in_line(
                        nums@,
                        stars@,
                        i as int,
                        j as int,
                    ),
                decreases stars@[i as int]@.len() - j,
            {
                let x = stars[i][j];
                let mut pg = PossibleGear::new(x);
                proof {
                    assert(pg.adjacents@ =~= Seq::<u64>::empty());
                }
                Self::collect_adjacents(&mut pg, &nums[i]);
                if i > 0 {
                    Self::collect_adjacents(&mut pg, &nums[i - 1]);
                }
                if i < nums.len() - 1 {
                    Self::collect_adjacents(&mut pg, &nums[i + 1]);
                }
                proof {
                    assert(pg.adjacents@ =~= star_adjacents(nums@, i as int, x as int));
                }
                match pg.into_gear() {
                    Some(g) => gears.push(g),
                    None => {},
                }
                proof {
                    assert(gears@ =~= gears_up_to(nums@, stars@, i as int) + gears_in_line(
                        nums@,
                        stars@,
                        i as int,
                        j + 1 as int,
                    ));
                }
                j += 1;
            }
            proof {
                assert(gears@ =~= gears_up_to(nums@, stars@, i + 1 as int));
            }
            i += 1;
        }
        gears
    }

    /// Adds to the possible gear the value of every listed number that
    /// touches its `*` cell, in list order.
    fn collect_adjacents(pg: &mut PossibleGear, numbers: &Vec<Number>)
        requires
            old(pg).index < usize::MAX,
            forall|i: int| 0 <= i < numbers@.len() ==> (#[trigger] numbers@[i]).end < usize::MAX,
        ensures
            final(pg).index == old(pg).index,
            final(pg).adjacents@ == old(pg).adjacents@ + adjacent_values(
                numbers@,
                old(pg).index as int,
                numbers@.len() as int,
            ),
    {
        let mut k: usize = 0;
        proof {
            assert(pg.adjacents@ =~= old(pg).adjacents@ + adjacent_values(
                numbers@,
                old(pg).index as int,
                0,
            ));
        }
        while k < numbers.len()
            invariant
                0 <= k <= numbers@.len(),
                pg.index == old(pg).index,
                pg.index < usize::MAX,
                forall|i: int|
                    0 <= i < numbers@.len() ==> (#[trigger] numbers@[i]).end < usize::MAX,
                pg.adjacents@ == old(pg).adjacents@ + adjacent_values(
                    numbers@,
                    old(pg).index as int,
                    k as int,
                ),
            decreases numbers@.len() - k,
        {
            let n = numbers[k];
            if pg.is_adjacent(&n) {
                pg.adjacents.push(n.number);
            }
            proof {
                assert(pg.adjacents@ =~= old(pg).adjacents@ + adjacent_values(
                    numbers@,
                    old(pg).index as int,
                    k + 1 as int,
                ));
            }
            k += 1;
        }
    }

    /// The sum of the gear ratios.  A product or a sum past the `u64`
    /// domain is an error.
    pub fn gear_ratio_sum(&self) -> (r: Result<u64, Error>)
        ensures
            match r {
                Ok(t) => exists|
                    ls: Seq<(usize, usize)>,
                    nums: Seq<Vec<Number>>,
                    stars: Seq<Vec<usize>>,
                |
                    #[trigger] scanned_numbers_and_stars(self.text_bytes(), ls, nums, stars) && t
                        == ratio_sum(gears_up_to(nums, stars, nums.len() as int)),
                Err(e) => e == Error::MalformedInput && (self.text_bytes().len() >= usize::MAX
                    || (exists|ls: Seq<(usize, usize)>|
                    #[trigger] line_decomposition(
                        self.text_bytes(),
                        0,
                        self.text_bytes().len() as int,
                        ls,
                    ) && some_line_overflows(self.text_bytes(), ls)) || (exists|
                    ls: Seq<(usize, usize)>,
                    nums: Seq<Vec<Number>>,
                    stars: Seq<Vec<usize>>,
                |
                    #[trigger] scanned_numbers_and_stars(self.text_bytes(), ls, nums, stars)
                        && ratios_past_max(gears_up_to(nums, stars, nums.len() as int)))),
            },
    {
        let gears = match self.gears() {
            Ok(v) => v,
            Err(e) => {
                return Err(e);
            },
        };
        let total = Self::sum_ratios(&gears);
        proof {
            let (ls, nums, stars) = choose|
                ls: Seq<(usize, usize)>,
                nums: Seq<Vec<Number>>,
                stars: Seq<Vec<usize>>,
            |
                #[trigger] scanned_numbers_and_stars(self.text_bytes(), ls, nums, stars)
                    && gears@ == gears_up_to(nums, stars, nums.len() as int);
            if total is Ok {
                assert(scanned_numbers_and_stars(self.text_bytes(), ls, nums, stars)
                    && total->Ok_0 == ratio_sum(gears_up_to(nums, stars, nums.len() as int)));
            } else {
                assert(scanned_numbers_and_stars(self.text_bytes(), ls, nums, stars)
                    && ratios_past_max(gears_up_to(nums, stars, nums.len() as int)));
            }
        }
        total
    }

    /// Adds the gear ratios up: succeeds exactly when every ratio and the
    /// whole sum fit in `u64`, and then returns the sum.
    pub fn sum_ratios(gears: &Vec<Gear>) -> (r: Result<u64, Error>)
        ensures
            match r {
                Ok(t) => t == ratio_sum(gears@) && forall|i: int|
                    0 <= i < gears@.len() ==> (#[trigger] gears@[i]).adjacent1
                        * gears@[i].adjacent2 <= u64::MAX,
                Err(e) => e == Error::MalformedInput && ratios_past_max(gears@),
            },
    {
        let mut total: u64 = 0;
        let mut k: usize = 0;
        while k < gears.len()
            invariant
                0 <= k <= gears@.len(),
                total == ratio_sum(gears@.take(k as int)),
                forall|i: int|
                    0 <= i < k ==> (#[trigger] gears@[i]).adjacent1 * gears@[i].adjacent2
                        <= u64::MAX,
            decreases gears@.len() - k,
        {
            proof {
                assert(gears@.take(k + 1 as int).drop_last() =~= gears@.take(k as int));
                assert(gears@.take(k + 1 as int).last() == gears@[k as int]);
            }
            let g = gears[k];
            let ratio = match g.adjacent1.checked_mul(g.adjacent2) {
                Some(p) => p,
                None => {
                    return Err(Error::MalformedInput);
                },
            };
            total = match total.checked_add(ratio) {
                Some(t) => t,
                None => {
                    proof {
                        lemma_ratio_sum_take(gears@, k + 1 as int);
                    }
                    return Err(Error::MalformedInput);
                },
            };
            k += 1;
        }
        proof {
            assert(gears@.take(gears@.len() as int) == gears@);
        }
        Ok(total)
    }
}

} // verus!
