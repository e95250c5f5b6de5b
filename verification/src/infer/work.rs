//! What compiling actually did, as opposed to what it wrote: the fixpoint
//! rounds, the expression visits and the whole-program passes. The counts
//! live in one record the compiler threads through, rather than in
//! thread-local cells.

use vstd::prelude::*;

verus! {

pub struct Work {
    pub rounds: u64,
    pub visits: u64,
    pub passes: u64,
}

impl Default for Work {
    fn default() -> (w: Work)
        ensures
            w.rounds == 0 && w.visits == 0 && w.passes == 0,
    {
        Work { rounds: 0, visits: 0, passes: 0 }
    }
}

pub fn reset(work: &mut Work)
    ensures
        final(work).rounds == 0 && final(work).visits == 0 && final(work).passes == 0,
{
    work.rounds = 0;
    work.visits = 0;
    work.passes = 0;
}

/// One whole-program inference.
pub fn pass(work: &mut Work)
    requires
        old(work).passes < u64::MAX,
    ensures
        *final(work) == (Work { passes: (old(work).passes + 1) as u64, ..*old(work) }),
        passes_of(*final(work)) == passes_of(*old(work)) + 1,
        taken_of(*final(work)) == taken_of(*old(work)),
{
    work.passes = work.passes + 1;
}

/// The passes a record counts.
pub open spec fn passes_of(w: Work) -> int {
    w.passes as int
}

/// The rounds and visits a record counts.
pub open spec fn taken_of(w: Work) -> (int, int) {
    (w.rounds as int, w.visits as int)
}

pub fn passes(work: &Work) -> (r: u64)
    ensures
        r == work.passes,
{
    work.passes
}

pub fn round(work: &mut Work)
    requires
        old(work).rounds < u64::MAX,
    ensures
        *final(work) == (Work { rounds: (old(work).rounds + 1) as u64, ..*old(work) }),
{
    work.rounds = work.rounds + 1;
}

pub fn visit(work: &mut Work)
    requires
        old(work).visits < u64::MAX,
    ensures
        *final(work) == (Work { visits: (old(work).visits + 1) as u64, ..*old(work) }),
{
    work.visits = work.visits + 1;
}

/// (fixpoint rounds, expression visits)
pub fn taken(work: &Work) -> (r: (u64, u64))
    ensures
        r == (work.rounds, work.visits),
{
    (work.rounds, work.visits)
}

} // verus!
