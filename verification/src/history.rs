use vstd::prelude::*;
use std::collections::VecDeque;

verus! {

/// Bounded first-in-first-out record of the most recent tour scores,
/// kept only for display trends: at most `CAPACITY` entries, the oldest
/// evicted when a new score arrives at the bound.
pub struct ScoreHistory {
    items: VecDeque<u64>,
}

/// Largest number of scores the history retains.
pub const CAPACITY: usize = 100;

impl ScoreHistory {
    /// The retained scores, oldest first.
    pub closed spec fn scores(self) -> Seq<u64> {
        self.items@
    }

    /// The history never exceeds its capacity.
    pub open spec fn wf(self) -> bool {
        self.scores().len() <= CAPACITY
    }

    pub fn new() -> (r: ScoreHistory)
        ensures
            r.wf(),
            r.scores() == Seq::<u64>::empty(),
    {
        ScoreHistory { items: VecDeque::new() }
    }

    pub fn len(&self) -> (r: usize)
        ensures
            r == self.scores().len(),
    {
        self.items.len()
    }

    pub fn get(&self, i: usize) -> (r: u64)
        requires
            i < self.scores().len(),
        ensures
            r == self.scores()[i as int],
    {
        *(&self.items[i])
    }

    /// Append the newest score, evicting the oldest when full.
    pub fn push(&mut self, score: u64)
        requires
            old(self).wf(),
        ensures
            final(self).wf(),
            old(self).scores().len() < CAPACITY ==> final(self).scores() == old(
                self,
            ).scores().push(score),
            old(self).scores().len() == CAPACITY ==> final(self).scores() == old(
                self,
            ).scores().push(score).skip(1),
    {
        let ghost before = self.items@;
        self.items.push_back(score);
        if self.items.len() > CAPACITY {
            let _evicted = self.items.pop_front();
            proof {
                assert(self.items@ =~= before.push(score).skip(1));
            }
        }
    }
}

} // verus!
