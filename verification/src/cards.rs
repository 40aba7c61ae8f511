//! Scratchcards: each card lists winning numbers and selected numbers.  A
//! card scores points for its matches, and each match also wins one copy of
//! each of the following cards, compounding over the pile.

use vstd::prelude::*;
use vstd::string::StringSliceAdditionalSpecFns;
use crate::Error;
use crate::parse::{digit_run_values, digits_value, is_digit, line_decomposition, line_spans, parse_u64, run_decomposition, runs_of, ByteClass};

verus! {

/// How many selected numbers appear among the winning ones, multiplicity of
/// the selected side counted.
pub open spec fn match_count(selected: Seq<u64>, winning: Seq<u64>) -> int
    decreases selected.len(),
{
    if selected.len() == 0 {
        0
    } else {
        match_count(selected.drop_last(), winning) + if winning.contains(selected.last()) {
            1int
        } else {
            0
        }
    }
}

/// The match count lies between zero and the number of selected values.
pub proof fn lemma_match_count_bounds(selected: Seq<u64>, winning: Seq<u64>)
    ensures
        0 <= match_count(selected, winning) <= selected.len(),
    decreases selected.len(),
{
    if selected.len() > 0 {
        lemma_match_count_bounds(selected.drop_last(), winning);
    }
}

/// The points a match count is worth: nothing for no match, then doubling
/// from one point per extra match.
pub open spec fn spec_points(m: int) -> int
    decreases m,
{
    if m <= 0 {
        0
    } else if m == 1 {
        1
    } else {
        2 * spec_points(m - 1)
    }
}

/// At least one match is worth at least one point.
pub proof fn lemma_spec_points_pos(m: int)
    requires
        m >= 1,
    ensures
        spec_points(m) >= 1,
    decreases m,
{
    if m > 1 {
        lemma_spec_points_pos(m - 1);
    }
}

/// More matches are never worth less.
pub proof fn lemma_spec_points_mono(a: int, b: int)
    requires
        1 <= a <= b,
    ensures
        spec_points(a) <= spec_points(b),
    decreases b - a,
{
    if a < b {
        lemma_spec_points_pos(a);
        lemma_spec_points_mono(a + 1, b);
    }
}

/// One scratchcard.
#[derive(Debug, Clone, PartialEq)]
pub struct Card {
    pub id: u64,
    pub winning: Vec<u64>,
    pub selected: Vec<u64>,
}

/// The line `s[a..b)` spells the card `c`, with its delimiters at the given
/// places: the word `Card`, at least one space, the identifier digits
/// `[p, e)`, a colon, the winning numbers before the first bar, the
/// selected numbers after it.
pub open spec fn card_line_parts(
    s: Seq<u8>,
    a: int,
    b: int,
    p: int,
    e: int,
    bar: int,
    c: Card,
) -> bool {
    &&& b - a >= 4 && s[a] == 'C' as u8 && s[a + 1] == 'a' as u8 && s[a + 2] == 'r' as u8 && s[a
        + 3] == 'd' as u8
    &&& a + 4 < p <= e < bar < b
    &&& forall|k: int| a + 4 <= k < p ==> s[k] == ' ' as u8
    &&& forall|k: int| p <= k < e ==> is_digit(#[trigger] s[k])
    &&& p < e
    &&& s[e] == ':' as u8
    &&& c.id == digits_value(s.subrange(p, e))
    &&& s[bar] == '|' as u8
    &&& forall|k: int| e + 1 <= k < bar ==> s[k] != '|' as u8
    &&& digit_run_values(s, e + 1, bar, c.winning@)
    &&& digit_run_values(s, bar + 1, b, c.selected@)
}

/// The line `s[a..b)` spells the card `c`.
pub open spec fn card_of_line(s: Seq<u8>, a: int, b: int, c: Card) -> bool {
    exists|p: int, e: int, bar: int| #[trigger] card_line_parts(s, a, b, p, e, bar, c)
}

/// The line cannot be read as a card: no card at all fits it, or a number
/// on it is past the `u64` domain.
pub open spec fn bad_card_line(s: Seq<u8>, a: int, b: int) -> bool {
    ||| forall|c: Card| !card_of_line(s, a, b, c)
    ||| crate::parse::overflowing_run(s, a, b)
}

/// Some non-empty line of the text cannot be read as a card.
pub open spec fn some_bad_card_line(s: Seq<u8>, ls: Seq<(usize, usize)>) -> bool {
    exists|i: int|
        0 <= i < ls.len() && (#[trigger] ls[i]).0 < ls[i].1 && bad_card_line(
            s,
            ls[i].0 as int,
            ls[i].1 as int,
        )
}

/// Some non-empty line of the whole text cannot be read as a card.
pub open spec fn cards_rejected(s: Seq<u8>) -> bool {
    exists|ls: Seq<(usize, usize)>|
        #[trigger] line_decomposition(s, 0, s.len() as int, ls) && some_bad_card_line(s, ls)
}

/// Whether the value occurs in the vector.
fn contains_val(v: &Vec<u64>, x: u64) -> (r: bool)
    ensures
        r == v@.contains(x),
{
    let mut k: usize = 0;
    while k < v.len()
        invariant
            0 <= k <= v@.len(),
            forall|i: int| 0 <= i < k ==> v@[i] != x,
        decreases v@.len() - k,
    {
        if v[k] == x {
            return true;
        }
        k += 1;
    }
    false
}

impl Card {
    /// The numbers found in `bytes[a..b)`, in order: the values of its
    /// maximal digit runs.
    pub(crate) fn collect_str(bytes: &[u8], a: usize, b: usize) -> (r: Result<Vec<u64>, Error>)
        requires
            a <= b <= bytes@.len(),
        ensures
            match r {
                Ok(v) => digit_run_values(bytes@, a as int, b as int, v@),
                Err(e) => e == Error::MalformedInput && crate::parse::overflowing_run(
                    bytes@,
                    a as int,
                    b as int,
                ),
            },
    {
        let runs = runs_of(bytes, a, b, ByteClass::Digit);
        let mut values: Vec<u64> = Vec::new();
        let mut k: usize = 0;
        while k < runs.len()
            invariant
                0 <= k <= runs@.len(),
                a <= b <= bytes@.len(),
                run_decomposition(bytes@, a as int, b as int, ByteClass::Digit, runs@),
                forall|i: int|
                    0 <= i < runs@.len() ==> a <= (#[trigger] runs@[i]).0 < runs@[i].1 <= b,
                values@.len() == k,
                forall|q: int|
                    0 <= q < k ==> (#[trigger] values@[q]) == digits_value(
                        bytes@.subrange(runs@[q].0 as int, runs@[q].1 as int),
                    ),
            decreases runs@.len() - k,
        {
            let (ra, rb) = runs[k];
            match parse_u64(bytes, ra, rb) {
                Some(n) => values.push(n),
                None => {
                    proof {
                        assert(digits_value(bytes@.subrange(ra as int, rb as int)) > u64::MAX);
                        assert(crate::parse::overflowing_run(bytes@, a as int, b as int));
                    }
                    return Err(Error::MalformedInput);
                },
            }
            k += 1;
        }
        proof {
            assert(digit_run_values(bytes@, a as int, b as int, values@));
        }
        Ok(values)
    }

    /// Reads one `Card <id>: <winning> | <selected>` line.
    pub fn try_from(s: &str) -> (r: Result<Card, Error>)
        ensures
            match r {
                Ok(c) => card_of_line(s.spec_bytes(), 0, s.spec_bytes().len() as int, c),
                Err(e) => e == Error::MalformedInput && bad_card_line(
                    s.spec_bytes(),
                    0,
                    s.spec_bytes().len() as int,
                ),
            },
    {
        let bytes = s.as_bytes();
        Self::from_bytes(bytes, 0, bytes.len())
    }

    /// Reads one card out of `bytes[a..b)`.
    pub(crate) fn from_bytes(bytes: &[u8], a: usize, b: usize) -> (r: Result<Card, Error>)
        requires
            a <= b <= bytes@.len(),
        ensures
            match r {
                Ok(c) => card_of_line(bytes@, a as int, b as int, c),
                Err(e) => e == Error::MalformedInput && bad_card_line(bytes@, a as int, b as int),
            },
    {
        // `Card`, at least one space, the identifier, a colon
        if b - a < 4 || !(bytes[a] == 'C' as u8 && bytes[a + 1] == 'a' as u8 && bytes[a + 2]
            == 'r' as u8 && bytes[a + 3] == 'd' as u8) {
            proof {
                assert forall|c: Card| !card_of_line(bytes@, a as int, b as int, c) by {
                    if card_of_line(bytes@, a as int, b as int, c) {
                        let (p0, e0, bar0) = choose|p0: int, e0: int, bar0: int|
                            #[trigger] card_line_parts(bytes@, a as int, b as int, p0, e0, bar0, c);
                        assert(false);
                    }
                }
            }
            return Err(Error::MalformedInput);
        }
        let mut p = a + 4;
        let mut sp: usize = 0;
        while p < b && bytes[p] == ' ' as u8
            invariant
                a + 4 <= p <= b <= bytes@.len(),
                p == a + 4 + sp,
                forall|k: int| a + 4 <= k < p ==> bytes@[k] == ' ' as u8,
            decreases b - p,
        {
            p += 1;
            sp += 1;
        }
        if sp == 0 {
            proof {
                assert forall|c: Card| !card_of_line(bytes@, a as int, b as int, c) by {
                    if card_of_line(bytes@, a as int, b as int, c) {
                        let (p0, e0, bar0) = choose|p0: int, e0: int, bar0: int|
                            #[trigger] card_line_parts(bytes@, a as int, b as int, p0, e0, bar0, c);
                        assert(bytes@[a as int + 4] == ' ' as u8);
                        assert(false);
                    }
                }
            }
            return Err(Error::MalformedInput);
        }
        let id_start = p;
        while p < b && 48 <= bytes[p] && bytes[p] <= 57
            invariant
                a <= id_start <= p <= b <= bytes@.len(),
                forall|k: int| id_start <= k < p ==> is_digit(#[trigger] bytes@[k]),
            decreases b - p,
        {
            p += 1;
        }
        let id = match parse_u64(bytes, id_start, p) {
            Some(n) => n,
            None => {
                proof {
                    if id_start == p {
                        // no digits follow the spaces: no card fits the line
                        assert forall|c: Card| !card_of_line(bytes@, a as int, b as int, c) by {
                            if card_of_line(bytes@, a as int, b as int, c) {
                                let (p0, e0, bar0) = choose|p0: int, e0: int, bar0: int|
                                    #[trigger] card_line_parts(
                                        bytes@,
                                        a as int,
                                        b as int,
                                        p0,
                                        e0,
                                        bar0,
                                        c,
                                    );
                                if p0 < id_start {
                                    assert(bytes@[p0] == ' ' as u8);
                                    assert(is_digit(bytes@[p0]));
                                } else if p0 > id_start {
                                    assert(bytes@[id_start as int] == ' ' as u8);
                                }
                                assert(p0 == id_start as int);
                                assert(is_digit(bytes@[id_start as int]));
                                assert(false);
                            }
                        }
                    } else {
                        // the identifier's digits spell a number past u64
                        assert(digits_value(bytes@.subrange(id_start as int, p as int))
                            > u64::MAX);
                        assert(!is_digit(bytes@[id_start as int - 1]));
                        assert(crate::parse::overflowing_run(bytes@, a as int, b as int));
                    }
                }
                return Err(Error::MalformedInput);
            },
        };
        if !(p < b && bytes[p] == ':' as u8) {
            proof {
                assert forall|c: Card| !card_of_line(bytes@, a as int, b as int, c) by {
                    if card_of_line(bytes@, a as int, b as int, c) {
                        let (p0, e0, bar0) = choose|p0: int, e0: int, bar0: int|
                            #[trigger] card_line_parts(bytes@, a as int, b as int, p0, e0, bar0, c);
                        if p0 < id_start {
                            assert(bytes@[p0] == ' ' as u8);
                            assert(is_digit(bytes@[p0]));
                        } else if p0 > id_start {
                            assert(bytes@[id_start as int] == ' ' as u8);
                        }
                        assert(p0 == id_start as int);
                        assert(e0 == p as int) by {
                            if e0 < p {
                                assert(is_digit(bytes@[e0]));
                                assert(bytes@[e0] == ':' as u8);
                            } else if e0 > p {
                                assert(is_digit(bytes@[p as int]));
                            }
                        }
                        assert(false);
                    }
                }
            }
            return Err(Error::MalformedInput);
        }
        // the winning numbers up to the bar, the selected ones after it
        let mut bar = p + 1;
        while bar < b && bytes[bar] != '|' as u8
            invariant
                a <= bar <= b <= bytes@.len(),
                a + 4 < p < bar,
                a + 4 <= id_start,
                bytes@[p as int] == ':' as u8,
                forall|k: int| a + 4 <= k < id_start ==> bytes@[k] == ' ' as u8,
                forall|k: int| id_start <= k < p ==> is_digit(#[trigger] bytes@[k]),
                id_start < p,
                forall|k: int| p + 1 <= k < bar ==> bytes@[k] != '|' as u8,
            decreases b - bar,
        {
            bar += 1;
        }
        if bar >= b {
            proof {
                assert forall|c: Card| !card_of_line(bytes@, a as int, b as int, c) by {
                    if card_of_line(bytes@, a as int, b as int, c) {
                        let (p0, e0, bar0) = choose|p0: int, e0: int, bar0: int|
                            #[trigger] card_line_parts(bytes@, a as int, b as int, p0, e0, bar0, c);
                        if p0 < id_start {
                            assert(bytes@[p0] == ' ' as u8);
                            assert(is_digit(bytes@[p0]));
                        } else if p0 > id_start {
                            assert(bytes@[id_start as int] == ' ' as u8);
                        }
                        assert(p0 == id_start as int);
                        assert(e0 == p as int) by {
                            if e0 < p {
                                assert(is_digit(bytes@[e0]));
                                assert(bytes@[e0] == ':' as u8);
                            } else if e0 > p {
                                assert(is_digit(bytes@[p as int]));
                            }
                        }
                        assert(bytes@[bar0] == '|' as u8);
                        assert(false);
                    }
                }
            }
            return Err(Error::MalformedInput);
        }
        let winning = match Self::collect_str(bytes, p + 1, bar) {
            Ok(v) => v,
            Err(e) => {
                proof {
                    assert(!is_digit(':' as u8) && !is_digit('|' as u8));
                    crate::parse::lemma_overflow_widens(
                        bytes@,
                        a as int,
                        b as int,
                        p + 1 as int,
                        bar as int,
                    );
                }
                return Err(e);
            },
        };
        let selected = match Self::collect_str(bytes, bar + 1, b) {
            Ok(v) => v,
            Err(e) => {
                proof {
                    assert(!is_digit('|' as u8));
                    crate::parse::lemma_overflow_widens(
                        bytes@,
                        a as int,
                        b as int,
                        bar + 1 as int,
                        b as int,
                    );
                }
                return Err(e);
            },
        };
        let c = Card { id, winning, selected };
        proof {
            assert(bytes@.subrange(id_start as int, p as int) == bytes@.subrange(
                id_start as int,
                p as int,
            ));
            assert(card_line_parts(bytes@, a as int, b as int, id_start as int, p as int, bar as int, c));
            assert(card_of_line(bytes@, a as int, b as int, c));
        }
        Ok(c)
    }

    /// How many selected numbers appear among the winning ones.
    pub fn matching(&self) -> (r: usize)
        ensures
            r == match_count(self.selected@, self.winning@),
    {
        proof {
            lemma_match_count_bounds(self.selected@, self.winning@);
        }
        let mut count: usize = 0;
        let mut k: usize = 0;
        while k < self.selected.len()
            invariant
                0 <= k <= self.selected@.len(),
                count == match_count(self.selected@.take(k as int), self.winning@),
                count <= k,
            decreases self.selected@.len() - k,
        {
            proof {
                assert(self.selected@.take(k + 1 as int).drop_last() =~= self.selected@.take(
                    k as int,
                ));
                assert(self.selected@.take(k + 1 as int).last() == self.selected@[k as int]);
                lemma_match_count_bounds(self.selected@.take(k as int), self.winning@);
            }
            if contains_val(&self.winning, self.selected[k]) {
                count += 1;
            }
            k += 1;
        }
        proof {
            assert(self.selected@.take(self.selected@.len() as int) == self.selected@);
        }
        count
    }

    /// The card's points: none without a match, else one doubled for every
    /// match beyond the first.
    pub fn points(&self) -> (r: u64)
        requires
            spec_points(match_count(self.selected@, self.winning@)) <= u64::MAX,
        ensures
            r == spec_points(match_count(self.selected@, self.winning@)),
    {
        let m = self.matching();
        if m == 0 {
            return 0;
        }
        let mut r: u64 = 1;
        let mut t: usize = 1;
        while t < m
            invariant
                1 <= t <= m,
                r == spec_points(t as int),
                spec_points(m as int) <= u64::MAX,
                m == match_count(self.selected@, self.winning@),
            decreases m - t,
        {
            proof {
                lemma_spec_points_mono(t + 1 as int, m as int);
                lemma_spec_points_pos(t as int);
            }
            r = 2 * r;
            t += 1;
        }
        r
    }
}

/// A card together with how many copies of it the pile holds.
#[derive(Debug, Clone, PartialEq)]
pub struct CardCopies {
    pub card: Card,
    pub copies: u64,
}

impl CardCopies {
    /// One fresh copy of the card.
    pub fn new(card: Card) -> (r: CardCopies)
        ensures
            r.card == card,
            r.copies == 1,
    {
        CardCopies { card, copies: 1 }
    }
}

/// The match count of the card at the index.
pub open spec fn card_match(s: Seq<CardCopies>, i: int) -> int {
    match_count(s[i].card.selected@, s[i].card.winning@)
}

/// The copies that cards before `i` pay into card `k` once processing is
/// done: each earlier card `j` whose match span reaches `k` pays its own
/// final copy count.
pub open spec fn contrib_sum(s: Seq<CardCopies>, k: int, i: int) -> int
    decreases k, i,
{
    if k <= 0 || i <= 0 {
        0
    } else {
        contrib_sum(s, k, i - 1) + if i - 1 < k && k <= i - 1 + card_match(s, i - 1) {
            copies_after(s, i - 1)
        } else {
            0
        }
    }
}

/// The final copy count of card `k`: what it started with plus what every
/// earlier card pays into it.
pub open spec fn copies_after(s: Seq<CardCopies>, k: int) -> int
    decreases k, k + 1,
{
    if k < 0 {
        0
    } else {
        s[k].copies + contrib_sum(s, k, k)
    }
}

/// Contributions to card `k` only come from cards before it, so the sum is
/// already complete once the first `k` cards are counted.
proof fn lemma_contrib_stable(s: Seq<CardCopies>, k: int, i: int)
    requires
        0 <= k <= i,
    ensures
        contrib_sum(s, k, i) == contrib_sum(s, k, k),
    decreases i - k,
{
    if i > k {
        lemma_contrib_stable(s, k, i - 1);
    }
}

/// The pile of scratchcards, one entry per input line.
#[derive(Debug, Clone, PartialEq)]
pub struct Cards(pub Vec<CardCopies>);

/// `items` are the cards of the text's non-empty lines, in order, one fresh
/// copy each; `picked` lists those lines' indices.
pub open spec fn cards_of_text(
    s: Seq<u8>,
    ls: Seq<(usize, usize)>,
    picked: Seq<int>,
    items: Seq<CardCopies>,
) -> bool {
    &&& line_decomposition(s, 0, s.len() as int, ls)
    &&& items.len() == picked.len()
    &&& forall|j1: int, j2: int|
        0 <= j1 < j2 < picked.len() ==> (#[trigger] picked[j1]) < (#[trigger] picked[j2])
    &&& forall|j: int|
        0 <= j < picked.len() ==> 0 <= (#[trigger] picked[j]) < ls.len() && ls[picked[j]].0
            < ls[picked[j]].1
    &&& forall|i: int|
        0 <= i < ls.len() && (#[trigger] ls[i]).0 < ls[i].1 ==> picked.contains(i)
    &&& forall|j: int|
        0 <= j < items.len() ==> card_of_line(
            s,
            ls[picked[j]].0 as int,
            ls[picked[j]].1 as int,
            (#[trigger] items[j]).card,
        ) && items[j].copies == 1
}

/// The text spells exactly these carded copies, one per non-empty line.
pub open spec fn spells_cards(s: Seq<u8>, items: Seq<CardCopies>) -> bool {
    exists|ls: Seq<(usize, usize)>, picked: Seq<int>| #[trigger] cards_of_text(s, ls, picked, items)
}

/// The sum of the cards' points.
pub open spec fn points_sum(s: Seq<CardCopies>) -> int
    decreases s.len(),
{
    if s.len() == 0 {
        0
    } else {
        points_sum(s.drop_last()) + spec_points(
            match_count(s.last().card.selected@, s.last().card.winning@),
        )
    }
}

/// A prefix of the cards sums to no more of the points than the whole.
proof fn lemma_points_sum_take(s: Seq<CardCopies>, k: int)
    requires
        0 <= k <= s.len(),
    ensures
        points_sum(s.take(k)) <= points_sum(s),
    decreases s.len() - k,
{
    if k == s.len() {
        assert(s.take(k) =~= s);
    } else {
        assert(s.take(k + 1).drop_last() =~= s.take(k));
        lemma_points_sum_take(s, k + 1);
        if spec_points(match_count(s[k].card.selected@, s[k].card.winning@)) < 0 {
            let m = match_count(s[k].card.selected@, s[k].card.winning@);
            if m >= 1 {
                lemma_spec_points_pos(m);
            }
            assert(false);
        }
    }
}

/// A sum of points is never negative.
proof fn lemma_points_sum_nonneg(s: Seq<CardCopies>)
    ensures
        points_sum(s) >= 0,
    decreases s.len(),
{
    if s.len() > 0 {
        lemma_points_sum_nonneg(s.drop_last());
        let m = match_count(s.last().card.selected@, s.last().card.winning@);
        if m >= 1 {
            lemma_spec_points_pos(m);
        }
    }
}

/// The sum of the cards' copy counts.
pub open spec fn copies_sum(s: Seq<CardCopies>) -> int
    decreases s.len(),
{
    if s.len() == 0 {
        0
    } else {
        copies_sum(s.drop_last()) + s.last().copies
    }
}

/// A prefix of the cards sums to no more of the copies than the whole.
proof fn lemma_copies_sum_take(s: Seq<CardCopies>, k: int)
    requires
        0 <= k <= s.len(),
    ensures
        copies_sum(s.take(k)) <= copies_sum(s),
    decreases s.len() - k,
{
    if k == s.len() {
        assert(s.take(k) =~= s);
    } else {
        assert(s.take(k + 1).drop_last() =~= s.take(k));
        lemma_copies_sum_take(s, k + 1);
    }
}

impl Cards {
    /// Reads one card per non-empty line; every such line must parse.
    pub fn try_from(s: &str) -> (r: Result<Cards, Error>)
        ensures
            match r {
                Ok(cs) => spells_cards(s.spec_bytes(), cs.0@),
                Err(e) => e == Error::MalformedInput && cards_rejected(s.spec_bytes()),
            },
    {
        let bytes = s.as_bytes();
        let lines = line_spans(bytes, 0, bytes.len());
        let mut items: Vec<CardCopies> = Vec::new();
        let ghost mut picked: Seq<int> = Seq::empty();
        let mut li: usize = 0;
        while li < lines.len()
            invariant
                0 <= li <= lines@.len(),
                bytes@ == s.spec_bytes(),
                line_decomposition(bytes@, 0, bytes@.len() as int, lines@),
                forall|i: int|
                    0 <= i < lines@.len() ==> (#[trigger] lines@[i]).0 <= lines@[i].1
                        <= bytes@.len(),
                items@.len() == picked.len(),
                forall|j1: int, j2: int|
                    0 <= j1 < j2 < picked.len() ==> (#[trigger] picked[j1]) < (
                    #[trigger] picked[j2]),
                forall|j: int|
                    0 <= j < picked.len() ==> 0 <= (#[trigger] picked[j]) < li
                        && lines@[picked[j]].0 < lines@[picked[j]].1,
                forall|i: int|
                    0 <= i < li && (#[trigger] lines@[i]).0 < lines@[i].1 ==> picked.contains(i),
                forall|j: int|
                    0 <= j < items@.len() ==> card_of_line(
                        bytes@,
                        lines@[picked[j]].0 as int,
                        lines@[picked[j]].1 as int,
                        (#[trigger] items@[j]).card,
                    ) && items@[j].copies == 1,
            decreases lines@.len() - li,
        {
            let (a, b) = lines[li];
            if a < b {
                match Card::from_bytes(bytes, a, b) {
                    Ok(c) => items.push(CardCopies::new(c)),
                    Err(e) => {
                        proof {
                            assert(bad_card_line(
                                s.spec_bytes(),
                                lines@[li as int].0 as int,
                                lines@[li as int].1 as int,
                            ));
                            assert(some_bad_card_line(s.spec_bytes(), lines@));
                            assert(line_decomposition(
                                s.spec_bytes(),
                                0,
                                s.spec_bytes().len() as int,
                                lines@,
                            ));
                            assert(cards_rejected(s.spec_bytes()));
                        }
                        return Err(e);
                    },
                }
                proof {
                    let ghost pre = picked;
                    picked = picked.push(li as int);
                    assert(picked[picked.len() - 1] == li as int);
                    assert forall|i: int|
                        0 <= i < li + 1 && (#[trigger] lines@[i]).0 < lines@[i].1
                        implies picked.contains(i) by {
                        if i < li {
                            let j = choose|j: int| 0 <= j < pre.len() && pre[j] == i;
                            assert(picked[j] == i);
                        } else {
                            assert(picked[picked.len() - 1] == i);
                        }
                    }
                }
            }
            li += 1;
        }
        proof {
            assert(cards_of_text(bytes@, lines@, picked, items@));
            assert(spells_cards(bytes@, items@));
        }
        Ok(Cards(items))
    }

    /// The sum of all cards' points.
    pub fn points(&self) -> (r: u64)
        requires
            points_sum(self.0@) <= u64::MAX,
        ensures
            r == points_sum(self.0@),
    {
        let mut total: u64 = 0;
        let mut k: usize = 0;
        while k < self.0.len()
            invariant
                0 <= k <= self.0@.len(),
                points_sum(self.0@) <= u64::MAX,
                total == points_sum(self.0@.take(k as int)),
            decreases self.0@.len() - k,
        {
            proof {
                assert(self.0@.take(k + 1 as int).drop_last() =~= self.0@.take(k as int));
                assert(self.0@.take(k + 1 as int).last() == self.0@[k as int]);
                lemma_points_sum_take(self.0@, k + 1 as int);
                lemma_points_sum_take(self.0@.take(k + 1 as int), k as int);
            }
            let p = self.0[k].card.points();
            total = total + p;
            k += 1;
        }
        proof {
            assert(self.0@.take(self.0@.len() as int) == self.0@);
        }
        total
    }

    /// Processes the pile front to back: each card pays its final copy count
    /// into the next cards across its match span.  Afterwards every card
    /// holds exactly the copy count the paying rule defines.
    pub fn process(&mut self)
        requires
            forall|k: int| 0 <= k < old(self).0@.len() ==> copies_after(old(self).0@, k) <= u64::MAX,
        ensures
            final(self).0@.len() == old(self).0@.len(),
            forall|k: int|
                0 <= k < old(self).0@.len() ==> (#[trigger] final(self).0@[k]).card
                    == old(self).0@[k].card,
            forall|k: int|
                0 <= k < old(self).0@.len() ==> (#[trigger] final(self).0@[k]).copies
                    == copies_after(old(self).0@, k),
    {
        let ghost orig = self.0@;
        let mut i: usize = 0;
        while i < self.0.len()
            invariant
                0 <= i <= orig.len(),
                self.0@.len() == orig.len(),
                forall|k: int| 0 <= k < orig.len() ==> copies_after(orig, k) <= u64::MAX,
                forall|k: int| 0 <= k < orig.len() ==> (#[trigger] self.0@[k]).card == orig[k].card,
                forall|k: int|
                    0 <= k < orig.len() ==> (#[trigger] self.0@[k]).copies == orig[k].copies
                        + contrib_sum(orig, k, i as int),
            decreases orig.len() - i,
        {
            let c = self.0[i].copies;
            proof {
                lemma_contrib_stable(orig, i as int, i as int);
                assert(c == copies_after(orig, i as int));
            }
            let m = self.0[i].card.matching();
            proof {
                assert(card_match(orig, i as int) == m);
            }
            let mut k = i + 1;
            let mut remaining = m;
            while remaining > 0 && k < self.0.len()
                invariant
                    i < k <= orig.len() + 1,
                    k + remaining == i + 1 + m,
                    self.0@.len() == orig.len(),
                    i < orig.len(),
                    c == copies_after(orig, i as int),
                    m == card_match(orig, i as int),
                    forall|q: int| 0 <= q < orig.len() ==> copies_after(orig, q) <= u64::MAX,
                    forall|q: int|
                        0 <= q < orig.len() ==> (#[trigger] self.0@[q]).card == orig[q].card,
                    forall|q: int|
                        0 <= q < orig.len() ==> (#[trigger] self.0@[q]).copies as int
                            == orig[q].copies + contrib_sum(orig, q, i as int) + (
                        if i < q < k && q <= i + m {
                            copies_after(orig, i as int)
                        } else {
                            0int
                        }),
                decreases remaining,
            {
                proof {
                    // the updated count stays within `u64`: it is a part of
                    // the card's final count
                    assert(contrib_sum(orig, k as int, i + 1 as int) == contrib_sum(
                        orig,
                        k as int,
                        i as int,
                    ) + copies_after(orig, i as int)) by {
                        assert((i as int) < (k as int) && (k as int) <= i + card_match(orig, i as int));
                    }
                    lemma_contrib_mono(orig, k as int, i + 1 as int, k as int);
                    lemma_copies_after_nonneg(orig, k as int);
                }
                self.0[k].copies = self.0[k].copies + c;
                k += 1;
                remaining -= 1;
            }
            proof {
                assert forall|q: int| 0 <= q < orig.len() implies (#[trigger] self.0@[q]).copies
                    as int == orig[q].copies + contrib_sum(orig, q, i + 1 as int) by {
                    if i < q && q <= i + m && q < k as int {
                        assert(contrib_sum(orig, q, i + 1) == contrib_sum(orig, q, i as int)
                            + copies_after(orig, i as int));
                    } else {
                        assert(contrib_sum(orig, q, i + 1) == contrib_sum(orig, q, i as int)) by {
                            if q > 0 && i + 1 > 0 {
                                if i < q && q <= i + card_match(orig, i as int) {
                                    // then the inner loop reached q
                                    assert(q < k as int);
                                    assert(false);
                                }
                            }
                        }
                    }
                }
            }
            i += 1;
        }
        proof {
            assert forall|k: int| 0 <= k < orig.len() implies (#[trigger] self.0@[k]).copies
                == copies_after(orig, k) by {
                lemma_contrib_stable(orig, k, orig.len() as int);
            }
        }
    }

    /// The sum of all cards' copy counts.
    pub fn count(&self) -> (r: u64)
        requires
            copies_sum(self.0@) <= u64::MAX,
        ensures
            r == copies_sum(self.0@),
    {
        let mut total: u64 = 0;
        let mut k: usize = 0;
        while k < self.0.len()
            invariant
                0 <= k <= self.0@.len(),
                copies_sum(self.0@) <= u64::MAX,
                total == copies_sum(self.0@.take(k as int)),
            decreases self.0@.len() - k,
        {
            proof {
                assert(self.0@.take(k + 1 as int).drop_last() =~= self.0@.take(k as int));
                assert(self.0@.take(k + 1 as int).last() == self.0@[k as int]);
                lemma_copies_sum_take(self.0@, k + 1 as int);
                lemma_copies_sum_take(self.0@.take(k + 1 as int), k as int);
            }
            total = total + self.0[k].copies;
            k += 1;
        }
        proof {
            assert(self.0@.take(self.0@.len() as int) == self.0@);
        }
        total
    }
}

/// Counting more of the earlier cards never lowers the contribution sum.
proof fn lemma_contrib_mono(s: Seq<CardCopies>, k: int, i: int, j: int)
    requires
        0 <= i <= j,
    ensures
        contrib_sum(s, k, i) <= contrib_sum(s, k, j),
    decreases j - i,
{
    if i < j {
        lemma_contrib_mono(s, k, i, j - 1);
        if k > 0 && j > 0 && j - 1 < k && k <= j - 1 + card_match(s, j - 1) {
            lemma_copies_after_nonneg(s, j - 1);
        }
    }
}

/// A final copy count is never negative.
proof fn lemma_copies_after_nonneg(s: Seq<CardCopies>, k: int)
    ensures
        copies_after(s, k) >= 0,
        contrib_sum(s, k, k) >= 0,
    decreases k, k + 1,
{
    if k >= 0 {
        lemma_contrib_nonneg(s, k, k);
    }
}

/// A contribution sum is never negative.
proof fn lemma_contrib_nonneg(s: Seq<CardCopies>, k: int, i: int)
    ensures
        contrib_sum(s, k, i) >= 0,
    decreases k, i,
{
    if k > 0 && i > 0 {
        lemma_contrib_nonneg(s, k, i - 1);
        if i - 1 < k && k <= i - 1 + card_match(s, i - 1) {
            lemma_copies_after_nonneg(s, i - 1);
        }
    }
}

} // verus!
