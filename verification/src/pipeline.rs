//! Drives a range set through an ordered chain of stage tables and reports
//! the smallest value that comes out at the end.

use vstd::prelude::*;
use crate::ranges::RangeSet;
use crate::stage::StageTable;

verus! {

/// Where an ordered chain of stages sends a set of values: the image under
/// the first stage, then under the second, and so on, in the order given.
pub open spec fn stages_image(stages: Seq<StageTable>, s: Set<int>) -> Set<int>
    decreases stages.len(),
{
    if stages.len() == 0 {
        s
    } else {
        stages_image(stages.drop_first(), stages.first().image(s))
    }
}

/// Appending one stage to the chain takes the image once more, at the end.
pub proof fn lemma_stages_image_push(stages: Seq<StageTable>, x: StageTable, s: Set<int>)
    ensures
        stages_image(stages.push(x), s) == x.image(stages_image(stages, s)),
    decreases stages.len(),
{
    if stages.len() == 0 {
        assert(stages.push(x).drop_first() =~= Seq::<StageTable>::empty());
        assert(stages.push(x).first() == x);
        assert(stages_image(stages.push(x), s) == stages_image(
            Seq::<StageTable>::empty(),
            x.image(s),
        ));
        assert(stages_image(stages, s) == s);
    } else {
        let t = stages.drop_first();
        assert(stages.push(x).drop_first() =~= t.push(x));
        assert(stages.push(x).first() == stages.first());
        assert(stages_image(stages.push(x), s) == stages_image(t.push(x), stages.first().image(s)));
        assert(stages_image(stages, s) == stages_image(t, stages.first().image(s)));
        lemma_stages_image_push(t, x, stages.first().image(s));
    }
}

/// Extending the chain by one stage takes the image once more, at the end.
pub proof fn lemma_stages_image_snoc(stages: Seq<StageTable>, s: Set<int>, n: int)
    requires
        0 <= n < stages.len(),
    ensures
        stages_image(stages.take(n + 1), s) == stages[n].image(stages_image(stages.take(n), s)),
    decreases n,
{
    if n == 0 {
        assert(stages.take(1).drop_first() =~= Seq::<StageTable>::empty());
        assert(stages.take(1).first() == stages[0]);
        assert(stages.take(0) =~= Seq::<StageTable>::empty());
        assert(stages_image(stages.take(0), s) == s);
        assert(stages_image(stages.take(1), s) == stages_image(
            Seq::<StageTable>::empty(),
            stages[0].image(s),
        ));
    } else {
        let t = stages.drop_first();
        let s0 = stages[0].image(s);
        assert(stages.take(n + 1).drop_first() =~= t.take(n));
        assert(stages.take(n).drop_first() =~= t.take(n - 1));
        assert(stages.take(n + 1).first() == stages[0]);
        assert(stages.take(n).first() == stages[0]);
        assert(stages_image(stages.take(n + 1), s) == stages_image(t.take(n), s0));
        assert(stages_image(stages.take(n), s) == stages_image(t.take(n - 1), s0));
        lemma_stages_image_snoc(t, s0, n - 1);
        assert(t[n - 1] == stages[n]);
    }
}

/// An ordered chain of stage tables.  Each run applies every stage exactly
/// once, in order, to a fresh range set.
#[derive(Debug)]
pub struct Pipeline {
    pub stages: Vec<StageTable>,
}

impl Pipeline {
    /// Well-formed: every stage table is.
    pub open spec fn wf(self) -> bool {
        forall|i: int| 0 <= i < self.stages@.len() ==> (#[trigger] self.stages@[i]).wf()
    }

    /// Builds the pipeline over the given stages, kept in the given order.
    pub fn new(stages: Vec<StageTable>) -> (r: Pipeline)
        ensures
            r.stages@ == stages@,
    {
        Pipeline { stages }
    }

    /// Folds `apply_stage` over the stage chain, in order: the result stands
    /// for exactly the chain's image of the initial value set.
    pub fn run(&self, initial: RangeSet) -> (r: RangeSet)
        requires
            self.wf(),
            initial.wf(),
        ensures
            r.wf(),
            r.to_set() == stages_image(self.stages@, initial.to_set()),
    {
        let ghost init_set = initial.to_set();
        let mut cur = initial;
        proof {
            assert(self.stages@.take(0) =~= Seq::<StageTable>::empty());
        }
        let mut k: usize = 0;
        while k < self.stages.len()
            invariant
                0 <= k <= self.stages@.len(),
                self.wf(),
                cur.wf(),
                cur.to_set() == stages_image(self.stages@.take(k as int), init_set),
            decreases self.stages@.len() - k,
        {
            let next = cur.apply_stage(&self.stages[k]);
            proof {
                lemma_stages_image_snoc(self.stages@, init_set, k as int);
            }
            cur = next;
            k += 1;
        }
        proof {
            assert(self.stages@.take(self.stages@.len() as int) == self.stages@);
        }
        cur
    }

    /// Runs the pipeline and returns the smallest resulting value, if any.
    pub fn minimum_location(&self, initial: RangeSet) -> (r: Option<u64>)
        requires
            self.wf(),
            initial.wf(),
        ensures
            match r {
                Option::None => stages_image(self.stages@, initial.to_set()).is_empty(),
                Option::Some(m) => stages_image(self.stages@, initial.to_set()).contains(m as int)
                    && forall|v: int|
                    stages_image(self.stages@, initial.to_set()).contains(v) ==> m as int <= v,
            },
    {
        let last = self.run(initial);
        last.minimum_start()
    }
}

} // verus!
