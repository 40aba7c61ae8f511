//! Byte-level scanning shared by the text formats of the puzzle modules:
//! splitting into lines, finding maximal runs of a byte class, and reading
//! unsigned decimal numbers.

use vstd::prelude::*;

verus! {

/// The byte is an ASCII decimal digit.
pub open spec fn is_digit(b: u8) -> bool {
    48 <= b <= 57
}

/// The classes of bytes the scanners look for.
#[derive(Debug, Clone, Copy, PartialEq, Eq, Structural)]
pub enum ByteClass {
    /// An ASCII decimal digit.
    Digit,
    /// A schematic symbol: anything but a dot, a digit or a line break.
    Symbol,
    /// An asterisk.
    Star,
}

/// Whether the byte belongs to the class.
pub open spec fn in_class(c: ByteClass, b: u8) -> bool {
    match c {
        ByteClass::Digit => is_digit(b),
        ByteClass::Symbol => b != '.' as u8 && !is_digit(b) && b != '\n' as u8,
        ByteClass::Star => b == '*' as u8,
    }
}

/// Executable test for `in_class`.
pub fn class_matches(c: ByteClass, b: u8) -> (r: bool)
    ensures
        r == in_class(c, b),
{
    match c {
        ByteClass::Digit => 48 <= b && b <= 57,
        ByteClass::Symbol => b != '.' as u8 && !(48 <= b && b <= 57) && b != '\n' as u8,
        ByteClass::Star => b == '*' as u8,
    }
}

/// `rs` is exactly the list of maximal runs of class-`c` bytes in
/// `s[from..to)`, in order: each run is non-empty, made of class bytes, and
/// cannot be extended either way; the runs are disjoint and sorted; and every
/// class byte of the region lies in one of them.
pub open spec fn run_decomposition(
    s: Seq<u8>,
    from: int,
    to: int,
    c: ByteClass,
    rs: Seq<(usize, usize)>,
) -> bool {
    &&& forall|i: int| 0 <= i < rs.len() ==> from <= (#[trigger] rs[i]).0 < rs[i].1 <= to
    &&& forall|i: int, k: int|
        0 <= i < rs.len() && (#[trigger] rs[i]).0 <= k < rs[i].1 ==> in_class(c, #[trigger] s[k])
    &&& forall|i: int|
        0 <= i < rs.len() ==> ((#[trigger] rs[i]).0 == from || !in_class(c, s[rs[i].0 - 1]))
    &&& forall|i: int|
        0 <= i < rs.len() ==> ((#[trigger] rs[i]).1 == to || !in_class(c, s[rs[i].1 as int]))
    &&& forall|i: int, j: int|
        0 <= i < j < rs.len() ==> (#[trigger] rs[i]).1 < (#[trigger] rs[j]).0
    &&& forall|k: int|
        from <= k < to && in_class(c, #[trigger] s[k]) ==> exists|i: int|
            0 <= i < rs.len() && (#[trigger] rs[i]).0 <= k < rs[i].1
}

/// Finds the maximal runs of class-`c` bytes in `bytes[from..to)`.
pub fn runs_of(bytes: &[u8], from: usize, to: usize, c: ByteClass) -> (rs: Vec<(usize, usize)>)
    requires
        from <= to <= bytes@.len(),
    ensures
        run_decomposition(bytes@, from as int, to as int, c, rs@),
{
    let mut rs: Vec<(usize, usize)> = Vec::new();
    let mut i = from;
    while i < to
        invariant
            from <= i <= to <= bytes@.len(),
            forall|r: int| 0 <= r < rs@.len() ==> from <= (#[trigger] rs@[r]).0 < rs@[r].1 <= i,
            forall|r: int, k: int|
                0 <= r < rs@.len() && (#[trigger] rs@[r]).0 <= k < rs@[r].1 ==> in_class(
                    c,
                    #[trigger] bytes@[k],
                ),
            forall|r: int|
                0 <= r < rs@.len() ==> ((#[trigger] rs@[r]).0 == from || !in_class(
                    c,
                    bytes@[rs@[r].0 - 1],
                )),
            forall|r: int|
                0 <= r < rs@.len() ==> ((#[trigger] rs@[r]).1 == to || !in_class(
                    c,
                    bytes@[rs@[r].1 as int],
                )),
            forall|r: int, q: int|
                0 <= r < q < rs@.len() ==> (#[trigger] rs@[r]).1 < (#[trigger] rs@[q]).0,
            forall|k: int|
                from <= k < i && in_class(c, #[trigger] bytes@[k]) ==> exists|r: int|
                    0 <= r < rs@.len() && (#[trigger] rs@[r]).0 <= k < rs@[r].1,
            i == from || !in_class(c, bytes@[i - 1]) || (rs@.len() > 0 && rs@[rs@.len() - 1].1
                == i),
        decreases to - i,
    {
        if class_matches(c, bytes[i]) {
            let mut j = i + 1;
            while j < to && class_matches(c, bytes[j])
                invariant
                    from <= i < j <= to <= bytes@.len(),
                    forall|k: int| i <= k < j ==> in_class(c, #[trigger] bytes@[k]),
                decreases to - j,
            {
                j += 1;
            }
            let ghost pre = rs@;
            rs.push((i, j));
            proof {
                assert forall|k: int| from <= k < j && in_class(c, #[trigger] bytes@[k])
                    implies exists|r: int|
                    0 <= r < rs@.len() && (#[trigger] rs@[r]).0 <= k < rs@[r].1 by {
                    if k < i {
                        let r = choose|r: int|
                            0 <= r < pre.len() && (#[trigger] pre[r]).0 <= k < pre[r].1;
                        assert(rs@[r].0 <= k < rs@[r].1);
                    } else {
                        assert(rs@[rs@.len() - 1].0 <= k < rs@[rs@.len() - 1].1);
                    }
                }
            }
            i = j;
        } else {
            i += 1;
        }
    }
    rs
}

/// `ns` lists exactly the numbers of `s[from..to)`: the values of its
/// maximal digit runs, in order.
pub open spec fn digit_run_values(s: Seq<u8>, from: int, to: int, ns: Seq<u64>) -> bool {
    exists|rs: Seq<(usize, usize)>|
        #[trigger] run_decomposition(s, from, to, ByteClass::Digit, rs) && ns.len() == rs.len()
            && forall|q: int|
            0 <= q < rs.len() ==> ns[q] == digits_value(
                s.subrange((#[trigger] rs[q]).0 as int, rs[q].1 as int),
            )
}

/// Some maximal digit run of `s[a..b)` spells a number past the `u64`
/// domain.
pub open spec fn overflowing_run(s: Seq<u8>, a: int, b: int) -> bool {
    exists|x: int, y: int|
        a <= x < y <= b && (forall|k: int| x <= k < y ==> is_digit(#[trigger] s[k])) && (x == a
            || !is_digit(s[x - 1])) && (y == b || !is_digit(s[y])) && digits_value(
            #[trigger] s.subrange(x, y),
        ) > u64::MAX
}

/// An overflowing digit run found within a piece of a region is one of the
/// whole region, when the piece's edges sit on non-digit bytes.
pub proof fn lemma_overflow_widens(s: Seq<u8>, a: int, b: int, sa: int, sb: int)
    requires
        a <= sa <= sb <= b,
        overflowing_run(s, sa, sb),
        sa == a || !is_digit(s[sa - 1]),
        sb == b || !is_digit(s[sb]),
    ensures
        overflowing_run(s, a, b),
{
    let (x, y) = choose|x: int, y: int|
        sa <= x < y <= sb && (forall|k: int| x <= k < y ==> is_digit(#[trigger] s[k])) && (x == sa
            || !is_digit(s[x - 1])) && (y == sb || !is_digit(s[y])) && digits_value(
            #[trigger] s.subrange(x, y),
        ) > u64::MAX;
}

/// Any maximal run of class bytes is one of the listed runs: the
/// decomposition misses nothing.
pub proof fn lemma_max_run_is_listed(
    s: Seq<u8>,
    from: int,
    to: int,
    c: ByteClass,
    rs: Seq<(usize, usize)>,
    x: int,
    y: int,
)
    requires
        run_decomposition(s, from, to, c, rs),
        from <= x < y <= to,
        forall|k: int| x <= k < y ==> in_class(c, #[trigger] s[k]),
        x == from || !in_class(c, s[x - 1]),
        y == to || !in_class(c, s[y]),
    ensures
        exists|q: int| 0 <= q < rs.len() && (#[trigger] rs[q]).0 == x && rs[q].1 == y,
{
    assert(in_class(c, s[x]));
    let q = choose|q: int| 0 <= q < rs.len() && (#[trigger] rs[q]).0 <= x < rs[q].1;
    if rs[q].0 < x {
        assert(in_class(c, s[x - 1]));
        assert(false);
    }
    if rs[q].1 < y {
        assert(in_class(c, s[rs[q].1 as int]));
        assert(false);
    }
    if rs[q].1 > y {
        assert(in_class(c, s[y]));
        assert(false);
    }
    assert(rs[q].0 == x && rs[q].1 == y);
}

/// The spans of the lines of `s[from..to)`: the pieces between line breaks,
/// without a final empty piece after a trailing line break.
pub open spec fn line_decomposition(s: Seq<u8>, from: int, to: int, ls: Seq<(usize, usize)>) -> bool {
    &&& forall|i: int| 0 <= i < ls.len() ==> from <= (#[trigger] ls[i]).0 <= ls[i].1 <= to
    &&& forall|i: int, k: int|
        0 <= i < ls.len() && (#[trigger] ls[i]).0 <= k < ls[i].1 ==> #[trigger] s[k] != '\n' as u8
    &&& forall|i: int|
        0 <= i < ls.len() - 1 ==> (#[trigger] ls[i]).1 < to && s[ls[i].1 as int] == '\n' as u8
            && ls[i + 1].0 == ls[i].1 + 1
    &&& (ls.len() == 0 ==> from == to)
    &&& (ls.len() > 0 ==> ls[0].0 == from && (ls.last().1 == to || (ls.last().1 + 1 == to
        && s[ls.last().1 as int] == '\n' as u8)))
    &&& (ls.len() > 0 ==> ls.last().0 < to)
}

/// Splits `bytes[from..to)` into its lines.
pub fn line_spans(bytes: &[u8], from: usize, to: usize) -> (ls: Vec<(usize, usize)>)
    requires
        from <= to <= bytes@.len(),
    ensures
        line_decomposition(bytes@, from as int, to as int, ls@),
{
    let mut ls: Vec<(usize, usize)> = Vec::new();
    let mut start = from;
    let mut i = from;
    while i < to
        invariant
            from <= start <= i <= to <= bytes@.len(),
            forall|r: int| 0 <= r < ls@.len() ==> from <= (#[trigger] ls@[r]).0 <= ls@[r].1 < i,
            forall|r: int, k: int|
                0 <= r < ls@.len() && (#[trigger] ls@[r]).0 <= k < ls@[r].1
                    ==> #[trigger] bytes@[k] != '\n' as u8,
            forall|r: int|
                0 <= r < ls@.len() ==> (#[trigger] ls@[r]).1 < to && bytes@[ls@[r].1 as int]
                    == '\n' as u8,
            forall|r: int| 0 <= r < ls@.len() - 1 ==> ls@[r + 1].0 == (#[trigger] ls@[r]).1 + 1,
            ls@.len() == 0 ==> start == from,
            ls@.len() > 0 ==> ls@[0].0 == from && start == ls@[ls@.len() - 1].1 + 1,
            forall|k: int| start <= k < i ==> #[trigger] bytes@[k] != '\n' as u8,
        decreases to - i,
    {
        if bytes[i] == '\n' as u8 {
            ls.push((start, i));
            start = i + 1;
        }
        i += 1;
    }
    if start < to {
        ls.push((start, to));
    }
    ls
}

/// The number the decimal digits spell, most significant first.
pub open spec fn digits_value(s: Seq<u8>) -> int
    decreases s.len(),
{
    if s.len() == 0 {
        0
    } else {
        digits_value(s.drop_last()) * 10 + (s.last() - 48)
    }
}

/// Every byte of the sequence is a digit.
pub open spec fn all_digits(s: Seq<u8>) -> bool {
    forall|i: int| 0 <= i < s.len() ==> is_digit(#[trigger] s[i])
}

/// A digit string's value is never negative.
pub proof fn lemma_digits_value_nonneg(s: Seq<u8>)
    requires
        all_digits(s),
    ensures
        digits_value(s) >= 0,
    decreases s.len(),
{
    if s.len() > 0 {
        assert(all_digits(s.drop_last())) by {
            assert(forall|i: int| 0 <= i < s.len() - 1 ==> s.drop_last()[i] == s[i]);
        }
        lemma_digits_value_nonneg(s.drop_last());
    }
}

/// Dropping trailing digits can only shrink the value.
pub proof fn lemma_digits_value_take(s: Seq<u8>, k: int)
    requires
        all_digits(s),
        0 <= k <= s.len(),
    ensures
        digits_value(s.take(k)) <= digits_value(s),
    decreases s.len() - k,
{
    if k == s.len() {
        assert(s.take(k) =~= s);
    } else {
        assert(all_digits(s.take(k)) && all_digits(s.take(k + 1))) by {
            assert(forall|i: int| 0 <= i < k + 1 ==> s.take(k + 1)[i] == s[i]);
            assert(forall|i: int| 0 <= i < k ==> s.take(k)[i] == s[i]);
        }
        lemma_digits_value_nonneg(s.take(k));
        assert(s.take(k + 1).drop_last() =~= s.take(k));
        assert(digits_value(s.take(k + 1)) == digits_value(s.take(k)) * 10 + (s[k] - 48));
        lemma_digits_value_take(s, k + 1);
    }
}

/// Reads `bytes[from..to)` as an unsigned decimal number: succeeds exactly
/// when the region is a non-empty string of digits whose value fits in `u64`,
/// and then returns that value.
pub fn parse_u64(bytes: &[u8], from: usize, to: usize) -> (r: Option<u64>)
    requires
        from <= to <= bytes@.len(),
    ensures
        ({
            let sub = bytes@.subrange(from as int, to as int);
            match r {
                Option::Some(n) => from < to && all_digits(sub) && n == digits_value(sub),
                Option::None => !(from < to && all_digits(sub) && digits_value(sub) <= u64::MAX),
            }
        }),
{
    let ghost sub = bytes@.subrange(from as int, to as int);
    if from >= to {
        return None;
    }
    let mut val: u64 = 0;
    let mut i = from;
    while i < to
        invariant
            from <= i <= to <= bytes@.len(),
            sub == bytes@.subrange(from as int, to as int),
            all_digits(sub.take(i - from)),
            val == digits_value(sub.take(i - from)),
        decreases to - i,
    {
        let b = bytes[i];
        proof {
            assert(sub.take(i - from + 1).drop_last() =~= sub.take(i - from));
            assert(sub.take(i - from + 1).last() == bytes@[i as int]);
        }
        if b < 48 || b > 57 {
            proof {
                assert(sub[i - from] == bytes@[i as int]);
                assert(!all_digits(sub));
            }
            return None;
        }
        let d: u64 = (b - 48) as u64;
        if val > (u64::MAX - d) / 10 {
            proof {
                // the value read so far already exceeds the `u64` domain
                assert(val * 10 + d > u64::MAX);
                if all_digits(sub) && digits_value(sub) <= u64::MAX {
                    lemma_digits_value_take(sub, i - from + 1);
                    assert(digits_value(sub.take(i - from + 1)) == val * 10 + d);
                    assert(false);
                }
            }
            return None;
        }
        val = val * 10 + d;
        i += 1;
        proof {
            assert(all_digits(sub.take(i - from)));
        }
    }
    proof {
        assert(sub.take(to - from as int) =~= sub);
    }
    Some(val)
}

} // verus!
