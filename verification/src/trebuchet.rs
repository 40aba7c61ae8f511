//! Calibration values: every input line hides a first and a last digit —
//! plain digits, or in the second reading also spelled-out digit words — and
//! the two make a two-digit value; the values are summed.

use vstd::prelude::*;
use vstd::string::StringSliceAdditionalSpecFns;
use crate::Error;
use crate::parse::{all_digits, digits_value, is_digit, line_decomposition, line_spans};
use crate::sums::{lemma_sum_of_take, sum_of};

verus! {

/// The value a digit token names: a spelled-out word from `one` to `nine`,
/// or a string of digits, after an optional leading plus sign, read as a
/// number.
pub open spec fn digit_token_value(s: Seq<u8>) -> Option<u64> {
    if s == seq!['o' as u8, 'n' as u8, 'e' as u8] {
        Some(1u64)
    } else if s == seq!['t' as u8, 'w' as u8, 'o' as u8] {
        Some(2u64)
    } else if s == seq!['t' as u8, 'h' as u8, 'r' as u8, 'e' as u8, 'e' as u8] {
        Some(3u64)
    } else if s == seq!['f' as u8, 'o' as u8, 'u' as u8, 'r' as u8] {
        Some(4u64)
    } else if s == seq!['f' as u8, 'i' as u8, 'v' as u8, 'e' as u8] {
        Some(5u64)
    } else if s == seq!['s' as u8, 'i' as u8, 'x' as u8] {
        Some(6u64)
    } else if s == seq!['s' as u8, 'e' as u8, 'v' as u8, 'e' as u8, 'n' as u8] {
        Some(7u64)
    } else if s == seq!['e' as u8, 'i' as u8, 'g' as u8, 'h' as u8, 't' as u8] {
        Some(8u64)
    } else if s == seq!['n' as u8, 'i' as u8, 'n' as u8, 'e' as u8] {
        Some(9u64)
    } else {
        let t = if s.len() > 0 && s[0] == '+' as u8 {
            s.skip(1)
        } else {
            s
        };
        if t.len() > 0 && all_digits(t) && digits_value(t) <= u64::MAX {
            Some(digits_value(t) as u64)
        } else {
            None
        }
    }
}

/// The digit token starting at position `p` of `s`, reading up to `hi`: a
/// plain digit, or — when `words` is set — also a spelled-out word from
/// `one` to `nine`.
pub open spec fn token_value(s: Seq<u8>, hi: int, p: int, words: bool) -> Option<u64> {
    if is_digit(s[p]) {
        Some((s[p] - 48) as u64)
    } else if !words {
        None
    } else if hi - p >= 3 && s.subrange(p, p + 3) == seq!['o' as u8, 'n' as u8, 'e' as u8] {
        Some(1u64)
    } else if hi - p >= 3 && s.subrange(p, p + 3) == seq!['t' as u8, 'w' as u8, 'o' as u8] {
        Some(2u64)
    } else if hi - p >= 3 && s.subrange(p, p + 3) == seq!['s' as u8, 'i' as u8, 'x' as u8] {
        Some(6u64)
    } else if hi - p >= 4 && s.subrange(p, p + 4) == seq![
        'f' as u8,
        'o' as u8,
        'u' as u8,
        'r' as u8,
    ] {
        Some(4u64)
    } else if hi - p >= 4 && s.subrange(p, p + 4) == seq![
        'f' as u8,
        'i' as u8,
        'v' as u8,
        'e' as u8,
    ] {
        Some(5u64)
    } else if hi - p >= 4 && s.subrange(p, p + 4) == seq![
        'n' as u8,
        'i' as u8,
        'n' as u8,
        'e' as u8,
    ] {
        Some(9u64)
    } else if hi - p >= 5 && s.subrange(p, p + 5) == seq![
        't' as u8,
        'h' as u8,
        'r' as u8,
        'e' as u8,
        'e' as u8,
    ] {
        Some(3u64)
    } else if hi - p >= 5 && s.subrange(p, p + 5) == seq![
        's' as u8,
        'e' as u8,
        'v' as u8,
        'e' as u8,
        'n' as u8,
    ] {
        Some(7u64)
    } else if hi - p >= 5 && s.subrange(p, p + 5) == seq![
        'e' as u8,
        'i' as u8,
        'g' as u8,
        'h' as u8,
        't' as u8,
    ] {
        Some(8u64)
    } else {
        None
    }
}

/// `v` is the calibration value of the line `s[a..b)`: ten times the
/// earliest token's digit plus the latest token's digit.
pub open spec fn line_value(s: Seq<u8>, a: int, b: int, words: bool, v: u64) -> bool {
    exists|p1: int, p2: int|
        a <= p1 < b && a <= p2 < b && (#[trigger] token_value(s, b, p1, words)) is Some && (
        #[trigger] token_value(s, b, p2, words)) is Some && (forall|q: int|
            a <= q < p1 ==> token_value(s, b, q, words) is None) && (forall|q: int|
            p2 < q < b ==> token_value(s, b, q, words) is None) && v == 10 * token_value(
            s,
            b,
            p1,
            words,
        )->0 + token_value(s, b, p2, words)->0
}

/// The calibration values of the input lines, one per line of the text.
pub open spec fn lines_values(s: Seq<u8>, ls: Seq<(usize, usize)>, words: bool, vs: Seq<u64>) -> bool {
    &&& line_decomposition(s, 0, s.len() as int, ls)
    &&& vs.len() == ls.len()
    &&& forall|i: int|
        0 <= i < ls.len() ==> line_value(
            s,
            (#[trigger] ls[i]).0 as int,
            ls[i].1 as int,
            words,
            vs[i],
        )
}

/// The text reads to exactly these calibration values, line by line.
pub open spec fn reads_to(s: Seq<u8>, words: bool, vs: Seq<u64>) -> bool {
    exists|ls: Seq<(usize, usize)>| #[trigger] lines_values(s, ls, words, vs)
}

/// No position of the line starts a token.
pub open spec fn line_without_token(s: Seq<u8>, a: int, b: int, words: bool) -> bool {
    forall|q: int| a <= q < b ==> token_value(s, b, q, words) is None
}

/// Some line of the list has no token at all.
pub open spec fn some_line_without_token(s: Seq<u8>, ls: Seq<(usize, usize)>, words: bool) -> bool {
    exists|i: int|
        0 <= i < ls.len() && line_without_token(
            s,
            (#[trigger] ls[i]).0 as int,
            ls[i].1 as int,
            words,
        )
}

/// Some line of the text has no token: the reading must fail.
pub open spec fn has_tokenless_line(s: Seq<u8>, words: bool) -> bool {
    exists|ls: Seq<(usize, usize)>|
        #[trigger] line_decomposition(s, 0, s.len() as int, ls) && some_line_without_token(
            s,
            ls,
            words,
        )
}

/// The calibration values of the input lines.
#[derive(Debug, Clone, PartialEq)]
pub struct Trebuchet {
    pub values: Vec<u64>,
}

impl Trebuchet {
    /// Wraps the given calibration values.
    pub fn new(values: Vec<u64>) -> (r: Trebuchet)
        ensures
            r.values@ == values@,
    {
        Trebuchet { values }
    }

    /// The sum of the calibration values.
    pub fn sum(&self) -> (r: u64)
        requires
            sum_of(self.values@) <= u64::MAX,
        ensures
            r == sum_of(self.values@),
    {
        let mut total: u64 = 0;
        let mut k: usize = 0;
        while k < self.values.len()
            invariant
                0 <= k <= self.values@.len(),
                sum_of(self.values@) <= u64::MAX,
                total == sum_of(self.values@.take(k as int)),
            decreases self.values@.len() - k,
        {
            proof {
                assert(self.values@.take(k + 1 as int).drop_last() =~= self.values@.take(k as int));
                assert(self.values@.take(k + 1 as int).last() == self.values@[k as int]);
                lemma_sum_of_take(self.values@, k + 1 as int);
                crate::sums::lemma_sum_of_nonneg(self.values@.take(k + 1 as int));
            }
            total = total + self.values[k];
            k += 1;
        }
        proof {
            assert(self.values@.take(self.values@.len() as int) == self.values@);
        }
        total
    }

    /// Reads the lines with plain digits only: the first and the last digit
    /// of each line form its value.
    pub fn from_str1(s: &str) -> (r: Result<Trebuchet, Error>)
        ensures
            match r {
                Ok(t) => reads_to(s.spec_bytes(), false, t.values@),
                Err(e) => e == Error::MalformedInput && has_tokenless_line(s.spec_bytes(), false),
            },
    {
        let bytes = s.as_bytes();
        let lines = line_spans(bytes, 0, bytes.len());
        let mut values: Vec<u64> = Vec::new();
        let mut li: usize = 0;
        while li < lines.len()
            invariant
                0 <= li <= lines@.len(),
                bytes@ == s.spec_bytes(),
                line_decomposition(bytes@, 0, bytes@.len() as int, lines@),
                forall|i: int|
                    0 <= i < lines@.len() ==> (#[trigger] lines@[i]).0 <= lines@[i].1
                        <= bytes@.len(),
                values@.len() == li,
                forall|i: int|
                    0 <= i < li ==> line_value(
                        bytes@,
                        (#[trigger] lines@[i]).0 as int,
                        lines@[i].1 as int,
                        false,
                        values@[i],
                    ),
            decreases lines@.len() - li,
        {
            let (a, b) = lines[li];
            let mut first: Option<u64> = None;
            let mut last: Option<u64> = None;
            let mut p = a;
            while p < b
                invariant
                    a <= p <= b <= bytes@.len(),
                    match first {
                        Option::Some(f) => f <= 9 && exists|q1: int|
                            a <= q1 < p && #[trigger] token_value(bytes@, b as int, q1, false)
                                == Some(f) && forall|q: int|
                                a <= q < q1 ==> token_value(bytes@, b as int, q, false) is None,
                        Option::None => forall|q: int|
                            a <= q < p ==> token_value(bytes@, b as int, q, false) is None,
                    },
                    match last {
                        Option::Some(l) => l <= 9 && exists|q2: int|
                            a <= q2 < p && #[trigger] token_value(bytes@, b as int, q2, false)
                                == Some(l) && forall|q: int|
                                q2 < q < p ==> token_value(bytes@, b as int, q, false) is None,
                        Option::None => forall|q: int|
                            a <= q < p ==> token_value(bytes@, b as int, q, false) is None,
                    },
                decreases b - p,
            {
                if 48 <= bytes[p] && bytes[p] <= 57 {
                    let d = (bytes[p] - 48) as u64;
                    proof {
                        assert(token_value(bytes@, b as int, p as int, false) == Some(d));
                    }
                    if first.is_none() {
                        first = Some(d);
                    }
                    last = Some(d);
                } else {
                    proof {
                        assert(token_value(bytes@, b as int, p as int, false) is None);
                    }
                }
                p += 1;
            }
            match (first, last) {
                (Some(f), Some(l)) => {
                    proof {
                        assert(line_value(bytes@, a as int, b as int, false, (f * 10 + l) as u64));
                    }
                    values.push(f * 10 + l);
                },
                _ => {
                    proof {
                        if !(first is None) {
                            // the two trackers are set together
                            assert(token_value(bytes@, b as int, choose|q1: int|
                                a <= q1 < b && #[trigger] token_value(bytes@, b as int, q1, false)
                                    == Some(first->0) && forall|q: int|
                                    a <= q < q1 ==> token_value(bytes@, b as int, q, false)
                                        is None, false) is None);
                            assert(false);
                        }
                        assert(line_without_token(bytes@, a as int, b as int, false));
                        assert(some_line_without_token(bytes@, lines@, false));
                        assert(line_decomposition(
                            s.spec_bytes(),
                            0,
                            s.spec_bytes().len() as int,
                            lines@,
                        ));
                        assert(some_line_without_token(s.spec_bytes(), lines@, false));
                        assert(has_tokenless_line(s.spec_bytes(), false));
                    }
                    return Err(Error::MalformedInput);
                },
            }
            li += 1;
        }
        proof {
            assert(lines_values(bytes@, lines@, false, values@));
            assert(reads_to(bytes@, false, values@));
        }
        Ok(Trebuchet::new(values))
    }

    /// Reads the lines with digits and digit words: the earliest and the
    /// latest token of each line — a digit, or a word from `one` to `nine`,
    /// overlaps allowed — form its value.
    pub fn from_str2(s: &str) -> (r: Result<Trebuchet, Error>)
        ensures
            match r {
                Ok(t) => reads_to(s.spec_bytes(), true, t.values@),
                Err(e) => e == Error::MalformedInput && has_tokenless_line(s.spec_bytes(), true),
            },
    {
        let bytes = s.as_bytes();
        let lines = line_spans(bytes, 0, bytes.len());
        let mut values: Vec<u64> = Vec::new();
        let mut li: usize = 0;
        while li < lines.len()
            invariant
                0 <= li <= lines@.len(),
                bytes@ == s.spec_bytes(),
                line_decomposition(bytes@, 0, bytes@.len() as int, lines@),
                forall|i: int|
                    0 <= i < lines@.len() ==> (#[trigger] lines@[i]).0 <= lines@[i].1
                        <= bytes@.len(),
                values@.len() == li,
                forall|i: int|
                    0 <= i < li ==> line_value(
                        bytes@,
                        (#[trigger] lines@[i]).0 as int,
                        lines@[i].1 as int,
                        true,
                        values@[i],
                    ),
            decreases lines@.len() - li,
        {
            let (a, b) = lines[li];
            let mut first: Option<u64> = None;
            let mut last: Option<u64> = None;
            let mut p = a;
            while p < b
                invariant
                    a <= p <= b <= bytes@.len(),
                    match first {
                        Option::Some(f) => f <= 9 && exists|q1: int|
                            a <= q1 < p && #[trigger] token_value(bytes@, b as int, q1, true)
                                == Some(f) && forall|q: int|
                                a <= q < q1 ==> token_value(bytes@, b as int, q, true) is None,
                        Option::None => forall|q: int|
                            a <= q < p ==> token_value(bytes@, b as int, q, true) is None,
                    },
                    match last {
                        Option::Some(l) => l <= 9 && exists|q2: int|
                            a <= q2 < p && #[trigger] token_value(bytes@, b as int, q2, true)
                                == Some(l) && forall|q: int|
                                q2 < q < p ==> token_value(bytes@, b as int, q, true) is None,
                        Option::None => forall|q: int|
                            a <= q < p ==> token_value(bytes@, b as int, q, true) is None,
                    },
                decreases b - p,
            {
                match Self::token_at(bytes, p, b) {
                    Some(d) => {
                        if first.is_none() {
                            first = Some(d);
                        }
                        last = Some(d);
                    },
                    None => {},
                }
                p += 1;
            }
            match (first, last) {
                (Some(f), Some(l)) => {
                    proof {
                        assert(line_value(bytes@, a as int, b as int, true, (f * 10 + l) as u64));
                    }
                    values.push(f * 10 + l);
                },
                _ => {
                    proof {
                        if !(first is None) {
                            // the two trackers are set together
                            assert(token_value(bytes@, b as int, choose|q1: int|
                                a <= q1 < b && #[trigger] token_value(bytes@, b as int, q1, true)
                                    == Some(first->0) && forall|q: int|
                                    a <= q < q1 ==> token_value(bytes@, b as int, q, true)
                                        is None, true) is None);
                            assert(false);
                        }
                        assert(line_without_token(bytes@, a as int, b as int, true));
                        assert(some_line_without_token(bytes@, lines@, true));
                        assert(line_decomposition(
                            s.spec_bytes(),
                            0,
                            s.spec_bytes().len() as int,
                            lines@,
                        ));
                        assert(some_line_without_token(s.spec_bytes(), lines@, true));
                        assert(has_tokenless_line(s.spec_bytes(), true));
                    }
                    return Err(Error::MalformedInput);
                },
            }
            li += 1;
        }
        proof {
            assert(lines_values(bytes@, lines@, true, values@));
            assert(reads_to(bytes@, true, values@));
        }
        Ok(Trebuchet::new(values))
    }

    /// The digit or digit word starting at `p`, staying before `b`.
    fn token_at(bytes: &[u8], p: usize, b: usize) -> (r: Option<u64>)
        requires
            p < b <= bytes@.len(),
        ensures
            r == token_value(bytes@, b as int, p as int, true),
            match r {
                Option::Some(d) => d <= 9,
                Option::None => true,
            },
    {
        if 48 <= bytes[p] && bytes[p] <= 57 {
            return Some((bytes[p] - 48) as u64);
        }
        if b - p >= 3 {
            if bytes[p] == 'o' as u8 && bytes[p + 1] == 'n' as u8 && bytes[p + 2] == 'e' as u8 {
                proof {
                    assert(bytes@.subrange(p as int, p + 3 as int) =~= seq!['o' as u8, 'n' as u8, 'e' as u8]);
                }
                return Some(1);
            }
            if bytes[p] == 't' as u8 && bytes[p + 1] == 'w' as u8 && bytes[p + 2] == 'o' as u8 {
                proof {
                    assert(bytes@.subrange(p as int, p + 3 as int) =~= seq!['t' as u8, 'w' as u8, 'o' as u8]);
                }
                return Some(2);
            }
            if bytes[p] == 's' as u8 && bytes[p + 1] == 'i' as u8 && bytes[p + 2] == 'x' as u8 {
                proof {
                    assert(bytes@.subrange(p as int, p + 3 as int) =~= seq!['s' as u8, 'i' as u8, 'x' as u8]);
                }
                return Some(6);
            }
        }
        if b - p >= 4 {
            if bytes[p] == 'f' as u8 && bytes[p + 1] == 'o' as u8 && bytes[p + 2] == 'u' as u8
                && bytes[p + 3] == 'r' as u8 {
                proof {
                    assert(bytes@.subrange(p as int, p + 4 as int) =~= seq!['f' as u8, 'o' as u8, 'u' as u8, 'r' as u8]);
                }
                return Some(4);
            }
            if bytes[p] == 'f' as u8 && bytes[p + 1] == 'i' as u8 && bytes[p + 2] == 'v' as u8
                && bytes[p + 3] == 'e' as u8 {
                proof {
                    assert(bytes@.subrange(p as int, p + 4 as int) =~= seq!['f' as u8, 'i' as u8, 'v' as u8, 'e' as u8]);
                }
                return Some(5);
            }
            if bytes[p] == 'n' as u8 && bytes[p + 1] == 'i' as u8 && bytes[p + 2] == 'n' as u8
                && bytes[p + 3] == 'e' as u8 {
                proof {
                    assert(bytes@.subrange(p as int, p + 4 as int) =~= seq!['n' as u8, 'i' as u8, 'n' as u8, 'e' as u8]);
                }
                return Some(9);
            }
        }
        if b - p >= 5 {
            if bytes[p] == 't' as u8 && bytes[p + 1] == 'h' as u8 && bytes[p + 2] == 'r' as u8
                && bytes[p + 3] == 'e' as u8 && bytes[p + 4] == 'e' as u8 {
                proof {
                    assert(bytes@.subrange(p as int, p + 5 as int) =~= seq!['t' as u8, 'h' as u8, 'r' as u8, 'e' as u8, 'e' as u8]);
                }
                return Some(3);
            }
            if bytes[p] == 's' as u8 && bytes[p + 1] == 'e' as u8 && bytes[p + 2] == 'v' as u8
                && bytes[p + 3] == 'e' as u8 && bytes[p + 4] == 'n' as u8 {
                proof {
                    assert(bytes@.subrange(p as int, p + 5 as int) =~= seq!['s' as u8, 'e' as u8, 'v' as u8, 'e' as u8, 'n' as u8]);
                }
                return Some(7);
            }
            if bytes[p] == 'e' as u8 && bytes[p + 1] == 'i' as u8 && bytes[p + 2] == 'g' as u8
                && bytes[p + 3] == 'h' as u8 && bytes[p + 4] == 't' as u8 {
                proof {
                    assert(bytes@.subrange(p as int, p + 5 as int) =~= seq!['e' as u8, 'i' as u8, 'g' as u8, 'h' as u8, 't' as u8]);
                }
                return Some(8);
            }
        }
        None
    }

    /// Reads one digit token: a word from `one` to `nine`, or a string of
    /// digits, exactly as `digit_token_value` names it.
    pub fn parse_str_digit(digit: &str) -> (r: Result<u64, Error>)
        ensures
            match r {
                Ok(n) => digit_token_value(digit.spec_bytes()) == Some(n),
                Err(e) => e == Error::MalformedInput && digit_token_value(digit.spec_bytes())
                    is None,
            },
    {
        let bytes = digit.as_bytes();
        let n = bytes.len();
        if n == 3 {
            if bytes[0] == 'o' as u8 && bytes[1] == 'n' as u8 && bytes[2] == 'e' as u8 {
                proof {
                    assert(bytes@ =~= seq!['o' as u8, 'n' as u8, 'e' as u8]);
                }
                return Ok(1);
            }
            if bytes[0] == 't' as u8 && bytes[1] == 'w' as u8 && bytes[2] == 'o' as u8 {
                proof {
                    assert(bytes@ =~= seq!['t' as u8, 'w' as u8, 'o' as u8]);
                }
                return Ok(2);
            }
            if bytes[0] == 's' as u8 && bytes[1] == 'i' as u8 && bytes[2] == 'x' as u8 {
                proof {
                    assert(bytes@ =~= seq!['s' as u8, 'i' as u8, 'x' as u8]);
                }
                return Ok(6);
            }
        }
        if n == 4 {
            if bytes[0] == 'f' as u8 && bytes[1] == 'o' as u8 && bytes[2] == 'u' as u8 && bytes[3]
                == 'r' as u8 {
                proof {
                    assert(bytes@ =~= seq!['f' as u8, 'o' as u8, 'u' as u8, 'r' as u8]);
                }
                return Ok(4);
            }
            if bytes[0] == 'f' as u8 && bytes[1] == 'i' as u8 && bytes[2] == 'v' as u8 && bytes[3]
                == 'e' as u8 {
                proof {
                    assert(bytes@ =~= seq!['f' as u8, 'i' as u8, 'v' as u8, 'e' as u8]);
                }
                return Ok(5);
            }
            if bytes[0] == 'n' as u8 && bytes[1] == 'i' as u8 && bytes[2] == 'n' as u8 && bytes[3]
                == 'e' as u8 {
                proof {
                    assert(bytes@ =~= seq!['n' as u8, 'i' as u8, 'n' as u8, 'e' as u8]);
                }
                return Ok(9);
            }
        }
        if n == 5 {
            if bytes[0] == 't' as u8 && bytes[1] == 'h' as u8 && bytes[2] == 'r' as u8 && bytes[3]
                == 'e' as u8 && bytes[4] == 'e' as u8 {
                proof {
                    assert(bytes@ =~= seq!['t' as u8, 'h' as u8, 'r' as u8, 'e' as u8, 'e' as u8]);
                }
                return Ok(3);
            }
            if bytes[0] == 's' as u8 && bytes[1] == 'e' as u8 && bytes[2] == 'v' as u8 && bytes[3]
                == 'e' as u8 && bytes[4] == 'n' as u8 {
                proof {
                    assert(bytes@ =~= seq!['s' as u8, 'e' as u8, 'v' as u8, 'e' as u8, 'n' as u8]);
                }
                return Ok(7);
            }
            if bytes[0] == 'e' as u8 && bytes[1] == 'i' as u8 && bytes[2] == 'g' as u8 && bytes[3]
                == 'h' as u8 && bytes[4] == 't' as u8 {
                proof {
                    assert(bytes@ =~= seq!['e' as u8, 'i' as u8, 'g' as u8, 'h' as u8, 't' as u8]);
                }
                return Ok(8);
            }
        }
        // a string of digits, after `str::parse`'s optional leading plus
        let from: usize = if n > 0 && bytes[0] == '+' as u8 {
            1
        } else {
            0
        };
        match crate::parse::parse_u64(bytes, from, n) {
            Some(v) => {
                proof {
                    assert(bytes@.subrange(from as int, n as int) =~= if from == 1 {
                        bytes@.skip(1)
                    } else {
                        bytes@
                    });
                }
                Ok(v)
            },
            None => {
                proof {
                    assert(bytes@.subrange(from as int, n as int) =~= if from == 1 {
                        bytes@.skip(1)
                    } else {
                        bytes@
                    });
                }
                Err(Error::MalformedInput)
            },
        }
    }
}

} // verus!
