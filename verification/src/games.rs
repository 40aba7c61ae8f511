//! The cube game: each game lists a few drawn sets of red, green and blue
//! cubes; a game is possible under a bag bound when every drawn set fits it,
//! and each game has a minimal bag that covers all its draws.

use vstd::prelude::*;
use vstd::arithmetic::mul::lemma_mul_nonnegative;
use vstd::string::StringSliceAdditionalSpecFns;
use crate::Error;
use crate::parse::{digits_value, is_digit, line_decomposition, line_spans, parse_u64, run_decomposition, runs_of, ByteClass};

verus! {

/// One drawn set of cubes.
#[derive(Debug, Clone, Copy, PartialEq, Eq, Structural)]
pub struct CubeSet {
    pub red: u64,
    pub blue: u64,
    pub green: u64,
}

/// The text ` red`.
pub open spec fn red_word() -> Seq<u8> {
    seq![' ' as u8, 'r' as u8, 'e' as u8, 'd' as u8]
}

/// The text ` green`.
pub open spec fn green_word() -> Seq<u8> {
    seq![' ' as u8, 'g' as u8, 'r' as u8, 'e' as u8, 'e' as u8, 'n' as u8]
}

/// The text ` blue`.
pub open spec fn blue_word() -> Seq<u8> {
    seq![' ' as u8, 'b' as u8, 'l' as u8, 'u' as u8, 'e' as u8]
}

/// The word `w` follows position `y`, within the bound `b`.
pub open spec fn run_followed_by(s: Seq<u8>, b: int, y: int, w: Seq<u8>) -> bool {
    y + w.len() <= b && s.subrange(y, y + w.len() as int) == w
}

/// `[x, y)` is a maximal digit run of `s[a..b)` whose end the colour word
/// `w` follows.
pub open spec fn colour_run(s: Seq<u8>, a: int, b: int, x: int, y: int, w: Seq<u8>) -> bool {
    &&& a <= x < y <= b
    &&& forall|k: int| x <= k < y ==> is_digit(#[trigger] s[k])
    &&& (x == a || !is_digit(s[x - 1]))
    &&& (y == b || !is_digit(s[y]))
    &&& run_followed_by(s, b, y, w)
}

/// `v` is the count the text `s[a..b)` gives the colour word `w`: the value
/// of the first digit run the word follows, or zero when there is none.
pub open spec fn colour_count(s: Seq<u8>, a: int, b: int, w: Seq<u8>, v: u64) -> bool {
    ||| (exists|x: int, y: int|
        #[trigger] colour_run(s, a, b, x, y, w) && (forall|x2: int, y2: int|
            #[trigger] colour_run(s, a, b, x2, y2, w) ==> y <= y2) && v == digits_value(
            s.subrange(x, y),
        ))
    ||| ((forall|x: int, y: int| !#[trigger] colour_run(s, a, b, x, y, w)) && v == 0)
}

/// The cube set the text `s[a..b)` spells: one count per colour word.
pub open spec fn cube_set_of_text(s: Seq<u8>, a: int, b: int, cs: CubeSet) -> bool {
    &&& colour_count(s, a, b, red_word(), cs.red)
    &&& colour_count(s, a, b, green_word(), cs.green)
    &&& colour_count(s, a, b, blue_word(), cs.blue)
}

/// Some digit run the text asks a colour count from is past the `u64`
/// domain.
pub open spec fn overlarge_colour_count(s: Seq<u8>, a: int, b: int) -> bool {
    exists|x: int, y: int|
        a <= x < y <= b && (forall|k: int| x <= k < y ==> is_digit(#[trigger] s[k])) && (x == a
            || !is_digit(s[x - 1])) && (y == b || !is_digit(s[y])) && digits_value(
            #[trigger] s.subrange(x, y),
        ) > u64::MAX && (run_followed_by(s, b, y, red_word()) || run_followed_by(
            s,
            b,
            y,
            green_word(),
        ) || run_followed_by(s, b, y, blue_word()))
}

/// Once every listed run is checked, the found value — or zero — is the
/// colour's count.
proof fn lemma_colour_done(
    s: Seq<u8>,
    a: int,
    b: int,
    w: Seq<u8>,
    rs: Seq<(usize, usize)>,
    found: bool,
    v: u64,
)
    requires
        run_decomposition(s, a, b, ByteClass::Digit, rs),
        !found ==> v == 0 && forall|q: int|
            0 <= q < rs.len() ==> !run_followed_by(s, b, (#[trigger] rs[q]).1 as int, w),
        found ==> exists|q0: int|
            0 <= q0 < rs.len() && #[trigger] run_followed_by(s, b, rs[q0].1 as int, w) && (forall|
                q: int,
            |
                0 <= q < q0 ==> !run_followed_by(s, b, (#[trigger] rs[q]).1 as int, w)) && v
                == digits_value(s.subrange(rs[q0].0 as int, rs[q0].1 as int)),
    ensures
        colour_count(s, a, b, w, v),
{
    if !found {
        assert forall|x: int, y: int| !#[trigger] colour_run(s, a, b, x, y, w) by {
            if colour_run(s, a, b, x, y, w) {
                crate::parse::lemma_max_run_is_listed(s, a, b, ByteClass::Digit, rs, x, y);
                let q = choose|q: int|
                    0 <= q < rs.len() && (#[trigger] rs[q]).0 == x && rs[q].1 == y;
                assert(!run_followed_by(s, b, rs[q].1 as int, w));
                assert(false);
            }
        }
    } else {
        let q0 = choose|q0: int|
            0 <= q0 < rs.len() && #[trigger] run_followed_by(s, b, rs[q0].1 as int, w) && (forall|
                q: int,
            |
                0 <= q < q0 ==> !run_followed_by(s, b, (#[trigger] rs[q]).1 as int, w)) && v
                == digits_value(s.subrange(rs[q0].0 as int, rs[q0].1 as int));
        let x0 = rs[q0].0 as int;
        let y0 = rs[q0].1 as int;
        assert(colour_run(s, a, b, x0, y0, w));
        assert forall|x2: int, y2: int| #[trigger] colour_run(s, a, b, x2, y2, w)
            implies y0 <= y2 by {
            crate::parse::lemma_max_run_is_listed(s, a, b, ByteClass::Digit, rs, x2, y2);
            let q2 = choose|q: int|
                0 <= q < rs.len() && (#[trigger] rs[q]).0 == x2 && rs[q].1 == y2;
            if q2 < q0 {
                assert(!run_followed_by(s, b, rs[q2].1 as int, w));
                assert(false);
            } else if q2 > q0 {
                assert(rs[q0].1 < rs[q2].0);
            }
        }
    }
}

impl CubeSet {
    /// The set fits within the bound, colour by colour.
    pub open spec fn spec_is_possible(self, max_set: CubeSet) -> bool {
        self.red <= max_set.red && self.blue <= max_set.blue && self.green <= max_set.green
    }

    /// The product of the three counts.
    pub open spec fn spec_power(self) -> int {
        self.red * self.blue * self.green
    }

    /// A power is never negative.
    pub proof fn lemma_power_nonneg(self)
        ensures
            self.spec_power() >= 0,
    {
        lemma_mul_nonnegative(self.red as int, self.blue as int);
        lemma_mul_nonnegative(self.red * self.blue, self.green as int);
    }

    /// Whether the set fits within the bound.
    pub fn is_possible(&self, max_set: &CubeSet) -> (r: bool)
        ensures
            r == self.spec_is_possible(*max_set),
    {
        self.red <= max_set.red && self.blue <= max_set.blue && self.green <= max_set.green
    }

    /// The set's power: the product of its three counts.
    pub fn power(&self) -> (r: u64)
        requires
            self.spec_power() <= u64::MAX,
        ensures
            r == self.spec_power(),
    {
        if self.red == 0 || self.blue == 0 || self.green == 0 {
            proof {
                assert(self.red * self.blue * self.green == 0) by (nonlinear_arith)
                    requires
                        self.red == 0 || self.blue == 0 || self.green == 0,
                ;
            }
            0
        } else {
            proof {
                assert(self.red * self.blue <= self.red * self.blue * self.green
                    && self.red as int <= self.red * self.blue) by (nonlinear_arith)
                    requires
                        self.red >= 1,
                        self.blue >= 1,
                        self.green >= 1,
                ;
            }
            self.red * self.blue * self.green
        }
    }

    /// Reads one drawn set: for each colour, the first number followed by
    /// that colour's name; a colour that never appears counts zero.
    pub fn try_from(s: &str) -> (r: Result<CubeSet, Error>)
        ensures
            match r {
                Ok(cs) => cube_set_of_text(s.spec_bytes(), 0, s.spec_bytes().len() as int, cs),
                Err(e) => e == Error::MalformedInput && overlarge_colour_count(
                    s.spec_bytes(),
                    0,
                    s.spec_bytes().len() as int,
                ),
            },
    {
        let bytes = s.as_bytes();
        Self::from_bytes(bytes, 0, bytes.len())
    }

    /// Reads one drawn set out of `bytes[a..b)`.
    #[verifier::rlimit(50)]
    pub(crate) fn from_bytes(bytes: &[u8], a: usize, b: usize) -> (r: Result<CubeSet, Error>)
        requires
            a <= b <= bytes@.len(),
        ensures
            match r {
                Ok(cs) => cube_set_of_text(bytes@, a as int, b as int, cs),
                Err(e) => e == Error::MalformedInput && overlarge_colour_count(
                    bytes@,
                    a as int,
                    b as int,
                ),
            },
    {
        let runs = runs_of(bytes, a, b, ByteClass::Digit);
        let mut red: u64 = 0;
        let mut green: u64 = 0;
        let mut blue: u64 = 0;
        let mut found_red = false;
        let mut found_green = false;
        let mut found_blue = false;
        let mut k: usize = 0;
        while k < runs.len()
            invariant
                0 <= k <= runs@.len(),
                a <= b <= bytes@.len(),
                run_decomposition(bytes@, a as int, b as int, ByteClass::Digit, runs@),
                forall|i: int|
                    0 <= i < runs@.len() ==> a <= (#[trigger] runs@[i]).0 < runs@[i].1 <= b,
                !found_red ==> red == 0 && forall|q: int|
                    0 <= q < k ==> !run_followed_by(
                        bytes@,
                        b as int,
                        (#[trigger] runs@[q]).1 as int,
                        red_word(),
                    ),
                found_red ==> exists|q0: int|
                    0 <= q0 < k && #[trigger] run_followed_by(
                        bytes@,
                        b as int,
                        runs@[q0].1 as int,
                        red_word(),
                    ) && (forall|q: int|
                        0 <= q < q0 ==> !run_followed_by(
                            bytes@,
                            b as int,
                            (#[trigger] runs@[q]).1 as int,
                            red_word(),
                        )) && red == digits_value(
                        bytes@.subrange(runs@[q0].0 as int, runs@[q0].1 as int),
                    ),
                !found_green ==> green == 0 && forall|q: int|
                    0 <= q < k ==> !run_followed_by(
                        bytes@,
                        b as int,
                        (#[trigger] runs@[q]).1 as int,
                        green_word(),
                    ),
                found_green ==> exists|q0: int|
                    0 <= q0 < k && #[trigger] run_followed_by(
                        bytes@,
                        b as int,
                        runs@[q0].1 as int,
                        green_word(),
                    ) && (forall|q: int|
                        0 <= q < q0 ==> !run_followed_by(
                            bytes@,
                            b as int,
                            (#[trigger] runs@[q]).1 as int,
                            green_word(),
                        )) && green == digits_value(
                        bytes@.subrange(runs@[q0].0 as int, runs@[q0].1 as int),
                    ),
                !found_blue ==> blue == 0 && forall|q: int|
                    0 <= q < k ==> !run_followed_by(
                        bytes@,
                        b as int,
                        (#[trigger] runs@[q]).1 as int,
                        blue_word(),
                    ),
                found_blue ==> exists|q0: int|
                    0 <= q0 < k && #[trigger] run_followed_by(
                        bytes@,
                        b as int,
                        runs@[q0].1 as int,
                        blue_word(),
                    ) && (forall|q: int|
                        0 <= q < q0 ==> !run_followed_by(
                            bytes@,
                            b as int,
                            (#[trigger] runs@[q]).1 as int,
                            blue_word(),
                        )) && blue == digits_value(
                        bytes@.subrange(runs@[q0].0 as int, runs@[q0].1 as int),
                    ),
            decreases runs@.len() - k,
        {
            let (ra, rb) = runs[k];
            if !found_red && rb <= b && b - rb >= 4 && bytes[rb] == ' ' as u8 && bytes[rb + 1]
                == 'r' as u8 && bytes[rb + 2] == 'e' as u8 && bytes[rb + 3] == 'd' as u8 {
                proof {
                    assert(bytes@.subrange(rb as int, rb + 4 as int) =~= red_word());
                    assert(run_followed_by(bytes@, b as int, rb as int, red_word()));
                }
                match parse_u64(bytes, ra, rb) {
                    Some(n) => {
                        red = n;
                        found_red = true;
                    },
                    None => {
                        proof {
                            assert(digits_value(bytes@.subrange(ra as int, rb as int))
                                > u64::MAX);
                            assert(overlarge_colour_count(bytes@, a as int, b as int));
                        }
                        return Err(Error::MalformedInput);
                    },
                }
            }
            if !found_green && rb <= b && b - rb >= 6 && bytes[rb] == ' ' as u8 && bytes[rb + 1]
                == 'g' as u8 && bytes[rb + 2] == 'r' as u8 && bytes[rb + 3] == 'e' as u8 && bytes[rb
                + 4] == 'e' as u8 && bytes[rb + 5] == 'n' as u8 {
                proof {
                    assert(bytes@.subrange(rb as int, rb + 6 as int) =~= green_word());
                    assert(run_followed_by(bytes@, b as int, rb as int, green_word()));
                }
                match parse_u64(bytes, ra, rb) {
                    Some(n) => {
                        green = n;
                        found_green = true;
                    },
                    None => {
                        proof {
                            assert(digits_value(bytes@.subrange(ra as int, rb as int))
                                > u64::MAX);
                            assert(overlarge_colour_count(bytes@, a as int, b as int));
                        }
                        return Err(Error::MalformedInput);
                    },
                }
            }
            if !found_blue && rb <= b && b - rb >= 5 && bytes[rb] == ' ' as u8 && bytes[rb + 1]
                == 'b' as u8 && bytes[rb + 2] == 'l' as u8 && bytes[rb + 3] == 'u' as u8 && bytes[rb
                + 4] == 'e' as u8 {
                proof {
                    assert(bytes@.subrange(rb as int, rb + 5 as int) =~= blue_word());
                    assert(run_followed_by(bytes@, b as int, rb as int, blue_word()));
                }
                match parse_u64(bytes, ra, rb) {
                    Some(n) => {
                        blue = n;
                        found_blue = true;
                    },
                    None => {
                        proof {
                            assert(digits_value(bytes@.subrange(ra as int, rb as int))
                                > u64::MAX);
                            assert(overlarge_colour_count(bytes@, a as int, b as int));
                        }
                        return Err(Error::MalformedInput);
                    },
                }
            }
            k += 1;
        }
        proof {
            lemma_colour_done(bytes@, a as int, b as int, red_word(), runs@, found_red, red);
            lemma_colour_done(bytes@, a as int, b as int, green_word(), runs@, found_green, green);
            lemma_colour_done(bytes@, a as int, b as int, blue_word(), runs@, found_blue, blue);
        }
        Ok(CubeSet { red, blue, green })
    }
}

/// One game: its identifier and the sets drawn during it.
#[derive(Debug, Clone, PartialEq)]
pub struct Game {
    pub id: u64,
    pub sets: Vec<CubeSet>,
}

/// Position `p` starts a `Game ` marker followed by a digit.
pub open spec fn game_header_at(s: Seq<u8>, b: int, p: int) -> bool {
    p + 6 <= b && s[p] == 'G' as u8 && s[p + 1] == 'a' as u8 && s[p + 2] == 'm' as u8 && s[p + 3]
        == 'e' as u8 && s[p + 4] == ' ' as u8 && is_digit(s[p + 5])
}

/// Where the `j`-th semicolon-separated segment starts.
pub open spec fn seg_start(e: int, cuts: Seq<usize>, j: int) -> int {
    if j == 0 {
        e + 2
    } else {
        cuts[j - 1] + 1
    }
}

/// Where the `j`-th semicolon-separated segment ends.
pub open spec fn seg_end(b: int, cuts: Seq<usize>, j: int) -> int {
    if j < cuts.len() {
        cuts[j] as int
    } else {
        b
    }
}

/// The line `s[a..b)` spells the game `g`, with its delimiters at the given
/// places: the first `Game ` marker at `p0`, the identifier digits up to
/// `e`, a colon and a space, then one drawn set per semicolon-separated
/// segment, the semicolons listed in `cuts`.
pub open spec fn game_line_parts(
    s: Seq<u8>,
    a: int,
    b: int,
    p0: int,
    e: int,
    cuts: Seq<usize>,
    g: Game,
) -> bool {
    &&& a <= p0 && game_header_at(s, b, p0)
    &&& forall|q: int| a <= q < p0 ==> !game_header_at(s, b, q)
    &&& p0 + 5 < e <= b
    &&& forall|k: int| p0 + 5 <= k < e ==> is_digit(#[trigger] s[k])
    &&& (e == b || !is_digit(s[e]))
    &&& g.id == digits_value(s.subrange(p0 + 5, e))
    &&& e + 2 <= b && s[e] == ':' as u8 && s[e + 1] == ' ' as u8
    &&& forall|j: int|
        0 <= j < cuts.len() ==> e + 2 <= (#[trigger] cuts[j]) < b && s[cuts[j] as int] == ';' as u8
    &&& forall|j1: int, j2: int|
        0 <= j1 < j2 < cuts.len() ==> (#[trigger] cuts[j1]) < (#[trigger] cuts[j2])
    &&& forall|k: int| e + 2 <= k < b && #[trigger] s[k] == ';' as u8 ==> cuts.contains(k as usize)
    &&& g.sets@.len() == cuts.len() + 1
    &&& forall|j: int|
        0 <= j <= cuts.len() ==> cube_set_of_text(
            s,
            seg_start(e, cuts, j),
            seg_end(b, cuts, j),
            #[trigger] g.sets@[j],
        )
}

/// The line `s[a..b)` spells the game `g`.
pub open spec fn game_of_line(s: Seq<u8>, a: int, b: int, g: Game) -> bool {
    exists|p0: int, e: int, cuts: Seq<usize>| #[trigger] game_line_parts(s, a, b, p0, e, cuts, g)
}

/// A colour count past `u64` found within a piece of a line is one of the
/// whole line, when the piece's edges sit on non-digit bytes.
proof fn lemma_overlarge_widens(s: Seq<u8>, a: int, b: int, sa: int, sb: int)
    requires
        a <= sa <= sb <= b,
        overlarge_colour_count(s, sa, sb),
        sa == a || !is_digit(s[sa - 1]),
        sb == b || !is_digit(s[sb]),
    ensures
        overlarge_colour_count(s, a, b),
{
    let (x, y) = choose|x: int, y: int|
        sa <= x < y <= sb && (forall|k: int| x <= k < y ==> is_digit(#[trigger] s[k])) && (x == sa
            || !is_digit(s[x - 1])) && (y == sb || !is_digit(s[y])) && digits_value(
            #[trigger] s.subrange(x, y),
        ) > u64::MAX && (run_followed_by(s, sb, y, red_word()) || run_followed_by(
            s,
            sb,
            y,
            green_word(),
        ) || run_followed_by(s, sb, y, blue_word()));
}

/// The line cannot be read as a game: no game at all fits it, or a number
/// on it is past the `u64` domain.
pub open spec fn bad_game_line(s: Seq<u8>, a: int, b: int) -> bool {
    ||| forall|g: Game| !game_of_line(s, a, b, g)
    ||| crate::parse::overflowing_run(s, a, b)
    ||| overlarge_colour_count(s, a, b)
}

/// Some line of the text cannot be read as a game.
pub open spec fn some_bad_game_line(s: Seq<u8>, ls: Seq<(usize, usize)>) -> bool {
    exists|i: int|
        0 <= i < ls.len() && bad_game_line(s, (#[trigger] ls[i]).0 as int, ls[i].1 as int)
}

/// Some line of the whole text cannot be read as a game.
pub open spec fn games_rejected(s: Seq<u8>) -> bool {
    exists|ls: Seq<(usize, usize)>|
        #[trigger] line_decomposition(s, 0, s.len() as int, ls) && some_bad_game_line(s, ls)
}

/// The text spells exactly these games, one per line.
pub open spec fn spells_games(s: Seq<u8>, gs: Seq<Game>) -> bool {
    exists|ls: Seq<(usize, usize)>| #[trigger] games_of_text(s, ls, gs)
}

/// The text `s`, split into its lines, spells one game per line.
pub open spec fn games_of_text(s: Seq<u8>, ls: Seq<(usize, usize)>, gs: Seq<Game>) -> bool {
    &&& line_decomposition(s, 0, s.len() as int, ls)
    &&& gs.len() == ls.len()
    &&& forall|i: int|
        0 <= i < ls.len() ==> game_of_line(s, (#[trigger] ls[i]).0 as int, ls[i].1 as int, gs[i])
}

/// The smallest bag that covers every drawn set: the colour-wise maximum,
/// starting from the empty bag.
pub open spec fn min_set_of(s: Seq<CubeSet>) -> CubeSet
    decreases s.len(),
{
    if s.len() == 0 {
        CubeSet { red: 0, blue: 0, green: 0 }
    } else {
        let m = min_set_of(s.drop_last());
        CubeSet {
            red: if s.last().red > m.red {
                s.last().red
            } else {
                m.red
            },
            blue: if s.last().blue > m.blue {
                s.last().blue
            } else {
                m.blue
            },
            green: if s.last().green > m.green {
                s.last().green
            } else {
                m.green
            },
        }
    }
}

impl Game {
    /// Every drawn set fits the bound.
    pub open spec fn spec_is_possible(self, max_set: CubeSet) -> bool {
        forall|i: int|
            0 <= i < self.sets@.len() ==> (#[trigger] self.sets@[i]).spec_is_possible(max_set)
    }

    /// Whether every drawn set fits the bound.
    pub fn is_possible(&self, max_set: &CubeSet) -> (r: bool)
        ensures
            r == self.spec_is_possible(*max_set),
    {
        let mut k: usize = 0;
        while k < self.sets.len()
            invariant
                0 <= k <= self.sets@.len(),
                forall|i: int|
                    0 <= i < k ==> (#[trigger] self.sets@[i]).spec_is_possible(*max_set),
            decreases self.sets@.len() - k,
        {
            if !self.sets[k].is_possible(max_set) {
                return false;
            }
            k += 1;
        }
        true
    }

    /// The smallest bag that covers every drawn set of the game.
    pub fn minimum_set(&self) -> (r: CubeSet)
        ensures
            r == min_set_of(self.sets@),
    {
        let mut m = CubeSet { red: 0, blue: 0, green: 0 };
        let mut k: usize = 0;
        while k < self.sets.len()
            invariant
                0 <= k <= self.sets@.len(),
                m == min_set_of(self.sets@.take(k as int)),
            decreases self.sets@.len() - k,
        {
            let s = self.sets[k];
            proof {
                assert(self.sets@.take(k + 1 as int).drop_last() =~= self.sets@.take(k as int));
                assert(self.sets@.take(k + 1 as int).last() == s);
            }
            m = CubeSet {
                red: if s.red > m.red {
                    s.red
                } else {
                    m.red
                },
                blue: if s.blue > m.blue {
                    s.blue
                } else {
                    m.blue
                },
                green: if s.green > m.green {
                    s.green
                } else {
                    m.green
                },
            };
            k += 1;
        }
        proof {
            assert(self.sets@.take(self.sets@.len() as int) == self.sets@);
        }
        m
    }

    /// Reads one game line: `Game <id>: <set>; <set>; ...`.
    pub fn try_from(s: &str) -> (r: Result<Game, Error>)
        ensures
            match r {
                Ok(g) => game_of_line(s.spec_bytes(), 0, s.spec_bytes().len() as int, g),
                Err(e) => e == Error::MalformedInput && bad_game_line(
                    s.spec_bytes(),
                    0,
                    s.spec_bytes().len() as int,
                ),
            },
    {
        let bytes = s.as_bytes();
        Self::from_bytes(bytes, 0, bytes.len())
    }

    /// Reads one game out of `bytes[a..b)`.
    pub(crate) fn from_bytes(bytes: &[u8], a: usize, b: usize) -> (r: Result<Game, Error>)
        requires
            a <= b <= bytes@.len(),
        ensures
            match r {
                Ok(g) => game_of_line(bytes@, a as int, b as int, g),
                Err(e) => e == Error::MalformedInput && bad_game_line(bytes@, a as int, b as int),
            },
    {
        // find `Game ` followed by the identifier
        let mut p = a;
        let mut found = false;
        while !found && b - p >= 6
            invariant
                a <= p <= b <= bytes@.len(),
                found ==> game_header_at(bytes@, b as int, p as int),
                forall|q2: int| a <= q2 < p ==> !game_header_at(bytes@, b as int, q2),
            decreases b - p + (if found { 0int } else { 1 }),
        {
            if bytes[p] == 'G' as u8 && bytes[p + 1] == 'a' as u8 && bytes[p + 2] == 'm' as u8
                && bytes[p + 3] == 'e' as u8 && bytes[p + 4] == ' ' as u8 && 48 <= bytes[p + 5]
                && bytes[p + 5] <= 57 {
                found = true;
            } else {
                p += 1;
            }
        }
        if !found {
            proof {
                assert forall|g: Game| !game_of_line(bytes@, a as int, b as int, g) by {
                    if game_of_line(bytes@, a as int, b as int, g) {
                        let (p0, e0, cuts) = choose|p0: int, e0: int, cuts: Seq<usize>|
                            #[trigger] game_line_parts(bytes@, a as int, b as int, p0, e0, cuts, g);
                        assert(!game_header_at(bytes@, b as int, p0));
                        assert(false);
                    }
                }
            }
            return Err(Error::MalformedInput);
        }
        // the identifier's digits
        let id_start = p + 5;
        let mut id_end = id_start;
        while id_end < b && 48 <= bytes[id_end] && bytes[id_end] <= 57
            invariant
                a <= id_start <= id_end <= b <= bytes@.len(),
                forall|k: int| id_start <= k < id_end ==> is_digit(#[trigger] bytes@[k]),
            decreases b - id_end,
        {
            id_end += 1;
        }
        let id = match parse_u64(bytes, id_start, id_end) {
            Some(n) => n,
            None => {
                proof {
                    // the identifier's digits are there, so only their value
                    // can be at fault
                    assert(is_digit(bytes@[id_start as int]));
                    assert(id_end > id_start);
                    assert(digits_value(bytes@.subrange(id_start as int, id_end as int))
                        > u64::MAX);
                    assert(!is_digit(bytes@[id_start as int - 1]));
                    assert(crate::parse::overflowing_run(bytes@, a as int, b as int));
                }
                return Err(Error::MalformedInput);
            },
        };
        if !(b - id_end >= 2 && bytes[id_end] == ':' as u8 && bytes[id_end + 1] == ' ' as u8) {
            proof {
                assert forall|g: Game| !game_of_line(bytes@, a as int, b as int, g) by {
                    if game_of_line(bytes@, a as int, b as int, g) {
                        let (p0, e0, cuts) = choose|p0: int, e0: int, cuts: Seq<usize>|
                            #[trigger] game_line_parts(bytes@, a as int, b as int, p0, e0, cuts, g);
                        // the first marker and the maximal digit run after it
                        // are the ones this body found
                        assert(p0 == p as int);
                        assert(e0 == id_end as int) by {
                            if e0 < id_end {
                                assert(is_digit(bytes@[e0]));
                            } else if e0 > id_end {
                                assert(is_digit(bytes@[id_end as int]));
                            }
                        }
                        assert(false);
                    }
                }
            }
            return Err(Error::MalformedInput);
        }
        // the drawn sets, separated by semicolons
        let mut sets: Vec<CubeSet> = Vec::new();
        let ghost mut cuts: Seq<usize> = Seq::empty();
        let mut seg_from = id_end + 2;
        let mut q = seg_from;
        while q < b
            invariant
                a <= id_end,
                id_end + 2 <= seg_from <= q <= b <= bytes@.len(),
                bytes@[id_end as int] == ':' as u8 && bytes@[id_end as int + 1] == ' ' as u8,
                seg_from as int == id_end + 2 || bytes@[seg_from as int - 1] == ';' as u8,
                seg_from as int == seg_start(id_end as int, cuts, cuts.len() as int),
                forall|j: int|
                    0 <= j < cuts.len() ==> id_end + 2 <= (#[trigger] cuts[j]) < q && bytes@[cuts[j] as int]
                        == ';' as u8,
                forall|j1: int, j2: int|
                    0 <= j1 < j2 < cuts.len() ==> (#[trigger] cuts[j1]) < (#[trigger] cuts[j2]),
                forall|k: int|
                    id_end + 2 <= k < q && #[trigger] bytes@[k] == ';' as u8 ==> cuts.contains(
                        k as usize,
                    ),
                sets@.len() == cuts.len(),
                forall|j: int|
                    0 <= j < cuts.len() ==> cube_set_of_text(
                        bytes@,
                        seg_start(id_end as int, cuts, j),
                        seg_end(b as int, cuts, j),
                        #[trigger] sets@[j],
                    ),
            decreases b - q,
        {
            if bytes[q] == ';' as u8 {
                match CubeSet::from_bytes(bytes, seg_from, q) {
                    Ok(cs) => sets.push(cs),
                    Err(e) => {
                        proof {
                            assert(!is_digit(';' as u8) && !is_digit(' ' as u8));
                            lemma_overlarge_widens(
                                bytes@,
                                a as int,
                                b as int,
                                seg_from as int,
                                q as int,
                            );
                        }
                        return Err(e);
                    },
                }
                proof {
                    let ghost pre = cuts;
                    cuts = cuts.push(q);
                    assert(cuts[cuts.len() - 1] == q);
                    assert forall|k: int|
                        id_end + 2 <= k < q + 1 && #[trigger] bytes@[k] == ';' as u8
                        implies cuts.contains(k as usize) by {
                        if k < q {
                            let j = choose|j: int| 0 <= j < pre.len() && pre[j] == (k as usize);
                            assert(cuts[j] == (k as usize));
                        } else {
                            assert(cuts[cuts.len() - 1] == (k as usize));
                        }
                    }
                }
                seg_from = q + 1;
            }
            q += 1;
        }
        match CubeSet::from_bytes(bytes, seg_from, b) {
            Ok(cs) => sets.push(cs),
            Err(e) => {
                proof {
                    assert(!is_digit(';' as u8) && !is_digit(' ' as u8));
                    lemma_overlarge_widens(bytes@, a as int, b as int, seg_from as int, b as int);
                }
                return Err(e);
            },
        }
        let g = Game { id, sets };
        proof {
            assert(cube_set_of_text(
                bytes@,
                seg_start(id_end as int, cuts, cuts.len() as int),
                seg_end(b as int, cuts, cuts.len() as int),
                g.sets@[cuts.len() as int],
            ));
            assert(game_line_parts(bytes@, a as int, b as int, p as int, id_end as int, cuts, g));
            assert(game_of_line(bytes@, a as int, b as int, g));
        }
        Ok(g)
    }
}

/// The sum of the powers of the games' minimal bags.
pub open spec fn power_sum(s: Seq<Game>) -> int
    decreases s.len(),
{
    if s.len() == 0 {
        0
    } else {
        power_sum(s.drop_last()) + min_set_of(s.last().sets@).spec_power()
    }
}

/// A prefix of the games sums to no more of the power than the whole.
proof fn lemma_power_sum_take(s: Seq<Game>, k: int)
    requires
        0 <= k <= s.len(),
    ensures
        power_sum(s.take(k)) <= power_sum(s),
    decreases s.len() - k,
{
    if k == s.len() {
        assert(s.take(k) =~= s);
    } else {
        assert(s.take(k + 1).drop_last() =~= s.take(k));
        min_set_of(s[k].sets@).lemma_power_nonneg();
        lemma_power_sum_take(s, k + 1);
    }
}

/// The sum of the game identifiers.
pub open spec fn ids_sum(s: Seq<Game>) -> int
    decreases s.len(),
{
    if s.len() == 0 {
        0
    } else {
        ids_sum(s.drop_last()) + s.last().id
    }
}

/// A prefix of the games sums to no more of the identifiers than the whole.
proof fn lemma_ids_sum_take(s: Seq<Game>, k: int)
    requires
        0 <= k <= s.len(),
    ensures
        ids_sum(s.take(k)) <= ids_sum(s),
    decreases s.len() - k,
{
    if k == s.len() {
        assert(s.take(k) =~= s);
    } else {
        assert(s.take(k + 1).drop_last() =~= s.take(k));
        lemma_ids_sum_take(s, k + 1);
    }
}

/// The games whose every drawn set fits the bound, in their given order.
pub open spec fn possible_games(s: Seq<Game>, max_set: CubeSet) -> Seq<Game> {
    s.filter(|g: Game| g.spec_is_possible(max_set))
}

/// A list of games, one per input line.
#[derive(Debug, Clone, PartialEq)]
pub struct Games {
    pub games: Vec<Game>,
}

impl Games {
    /// Reads one game per line; every line must parse.
    pub fn try_from(s: &str) -> (r: Result<Games, Error>)
        ensures
            match r {
                Ok(g) => spells_games(s.spec_bytes(), g.games@),
                Err(e) => e == Error::MalformedInput && games_rejected(s.spec_bytes()),
            },
    {
        let bytes = s.as_bytes();
        let lines = line_spans(bytes, 0, bytes.len());
        let mut games: Vec<Game> = Vec::new();
        let mut li: usize = 0;
        while li < lines.len()
            invariant
                0 <= li <= lines@.len(),
                bytes@ == s.spec_bytes(),
                line_decomposition(bytes@, 0, bytes@.len() as int, lines@),
                forall|i: int|
                    0 <= i < lines@.len() ==> (#[trigger] lines@[i]).0 <= lines@[i].1
                        <= bytes@.len(),
                games@.len() == li,
                forall|i: int|
                    0 <= i < li ==> game_of_line(
                        bytes@,
                        (#[trigger] lines@[i]).0 as int,
                        lines@[i].1 as int,
                        games@[i],
                    ),
            decreases lines@.len() - li,
        {
            let (a, b) = lines[li];
            match Game::from_bytes(bytes, a, b) {
                Ok(g) => games.push(g),
                Err(e) => {
                    proof {
                        assert(bad_game_line(
                            s.spec_bytes(),
                            lines@[li as int].0 as int,
                            lines@[li as int].1 as int,
                        ));
                        assert(some_bad_game_line(s.spec_bytes(), lines@));
                        assert(line_decomposition(
                            s.spec_bytes(),
                            0,
                            s.spec_bytes().len() as int,
                            lines@,
                        ));
                        assert(games_rejected(s.spec_bytes()));
                    }
                    return Err(e);
                },
            }
            li += 1;
        }
        proof {
            assert(games_of_text(bytes@, lines@, games@));
            assert(spells_games(bytes@, games@));
        }
        Ok(Games { games })
    }

    /// Keeps exactly the games whose every drawn set fits the bound.
    pub fn filter_possible(self, max_set: &CubeSet) -> (r: Games)
        ensures
            r.games@ == possible_games(self.games@, *max_set),
    {
        let mut rest = self.games;
        let ghost orig = rest@;
        let mut games: Vec<Game> = Vec::new();
        let ghost mut done: int = 0;
        proof {
            reveal(Seq::filter);
            assert(orig.take(0) =~= Seq::<Game>::empty());
            assert(rest@ =~= orig.skip(0));
        }
        while rest.len() > 0
            invariant
                0 <= done <= orig.len(),
                rest@ == orig.skip(done),
                games@ == possible_games(orig.take(done), *max_set),
            decreases rest@.len(),
        {
            let g = rest.remove(0);
            proof {
                reveal(Seq::filter);
                assert(g == orig[done]);
                assert(rest@ =~= orig.skip(done + 1));
                assert(orig.take(done + 1).drop_last() =~= orig.take(done));
                assert(orig.take(done + 1).last() == orig[done]);
                assert(possible_games(orig.take(done + 1), *max_set) == (
                if g.spec_is_possible(*max_set) {
                    possible_games(orig.take(done), *max_set).push(g)
                } else {
                    possible_games(orig.take(done), *max_set)
                }));
            }
            if g.is_possible(max_set) {
                games.push(g);
            }
            proof {
                done = done + 1;
            }
        }
        proof {
            assert(orig.take(orig.len() as int) == orig);
        }
        Games { games }
    }

    /// The sum of the game identifiers.
    pub fn id_sum(&self) -> (r: u64)
        requires
            ids_sum(self.games@) <= u64::MAX,
        ensures
            r == ids_sum(self.games@),
    {
        let mut total: u64 = 0;
        let mut k: usize = 0;
        while k < self.games.len()
            invariant
                0 <= k <= self.games@.len(),
                ids_sum(self.games@) <= u64::MAX,
                total == ids_sum(self.games@.take(k as int)),
            decreases self.games@.len() - k,
        {
            proof {
                assert(self.games@.take(k + 1 as int).drop_last() =~= self.games@.take(k as int));
                assert(self.games@.take(k + 1 as int).last() == self.games@[k as int]);
                lemma_ids_sum_take(self.games@, k + 1 as int);
            }
            total = total + self.games[k].id;
            k += 1;
        }
        proof {
            assert(self.games@.take(self.games@.len() as int) == self.games@);
        }
        total
    }

    /// The sum, over all games, of the power of the game's minimal bag.
    pub fn power_sum_of_min_sets(&self) -> (r: u64)
        requires
            power_sum(self.games@) <= u64::MAX,
        ensures
            r == power_sum(self.games@),
    {
        let mut total: u64 = 0;
        let mut k: usize = 0;
        while k < self.games.len()
            invariant
                0 <= k <= self.games@.len(),
                power_sum(self.games@) <= u64::MAX,
                total == power_sum(self.games@.take(k as int)),
            decreases self.games@.len() - k,
        {
            proof {
                assert(self.games@.take(k + 1 as int).drop_last() =~= self.games@.take(k as int));
                assert(self.games@.take(k + 1 as int).last() == self.games@[k as int]);
                lemma_power_sum_take(self.games@, k + 1 as int);
                min_set_of(self.games@[k as int].sets@).lemma_power_nonneg();
                if power_sum(self.games@.take(k as int)) < 0 {
                    lemma_power_sum_take(self.games@.take(k as int), 0);
                    assert(false);
                }
            }
            let m = self.games[k].minimum_set();
            total = total + m.power();
            k += 1;
        }
        proof {
            assert(self.games@.take(self.games@.len() as int) == self.games@);
        }
        total
    }
}

} // verus!
