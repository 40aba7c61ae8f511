//! Sums of sequences of machine integers, and the bounds the summing loops
//! need.

use vstd::prelude::*;
use crate::Error;

verus! {

/// The sum of the values.
pub open spec fn sum_of(s: Seq<u64>) -> int
    decreases s.len(),
{
    if s.len() == 0 {
        0
    } else {
        sum_of(s.drop_last()) + s.last()
    }
}

/// A sum of unsigned values is never negative.
pub proof fn lemma_sum_of_nonneg(s: Seq<u64>)
    ensures
        sum_of(s) >= 0,
    decreases s.len(),
{
    if s.len() > 0 {
        lemma_sum_of_nonneg(s.drop_last());
    }
}

/// Adds the values up: succeeds exactly when the sum fits in `u64`, and then
/// returns it.
pub fn sum_values(values: &Vec<u64>) -> (r: Result<u64, Error>)
    ensures
        match r {
            Ok(t) => t == sum_of(values@),
            Err(e) => e == Error::MalformedInput && sum_of(values@) > u64::MAX,
        },
{
    let mut total: u64 = 0;
    let mut k: usize = 0;
    while k < values.len()
        invariant
            0 <= k <= values@.len(),
            total == sum_of(values@.take(k as int)),
        decreases values@.len() - k,
    {
        proof {
            assert(values@.take(k + 1 as int).drop_last() =~= values@.take(k as int));
            assert(values@.take(k + 1 as int).last() == values@[k as int]);
        }
        total = match total.checked_add(values[k]) {
            Some(t) => t,
            None => {
                proof {
                    lemma_sum_of_take(values@, k + 1 as int);
                }
                return Err(Error::MalformedInput);
            },
        };
        k += 1;
    }
    proof {
        assert(values@.take(values@.len() as int) == values@);
    }
    Ok(total)
}

/// A prefix of unsigned values sums to no more than the whole.
pub proof fn lemma_sum_of_take(s: Seq<u64>, k: int)
    requires
        0 <= k <= s.len(),
    ensures
        sum_of(s.take(k)) <= sum_of(s),
    decreases s.len() - k,
{
    if k == s.len() {
        assert(s.take(k) =~= s);
    } else {
        assert(s.take(k + 1).drop_last() =~= s.take(k));
        lemma_sum_of_take(s, k + 1);
    }
}

} // verus!
