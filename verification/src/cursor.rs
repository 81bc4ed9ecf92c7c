//! Spill cursors: the position of the merge in one spill.

use crate::loser_tree::Ranked;
use vstd::prelude::*;

verus! {

/// The first partition at or after `from` that has bytes in the spill with the
/// offset table `offsets`, or the first position at which a cursor is
/// finished where no such partition is left.
pub open spec fn next_nonempty(offsets: Seq<u64>, from: int) -> int
    decreases offsets.len() - from,
{
    if from + 1 >= offsets.len() {
        from
    } else if offsets[from + 1] != offsets[from] {
        from
    } else {
        next_nonempty(offsets, from + 1)
    }
}

/// What `next_nonempty` finds: a position not before `from`, with nothing but
/// empty partitions in between, which is finished or has bytes itself.
pub proof fn lemma_next_nonempty(offsets: Seq<u64>, from: int)
    requires
        0 <= from,
    ensures
        from <= next_nonempty(offsets, from),
        next_nonempty(offsets, from) + 1 < offsets.len() ==> offsets[next_nonempty(offsets, from)
            + 1] != offsets[next_nonempty(offsets, from)],
        from + 1 < offsets.len() ==> next_nonempty(offsets, from) + 1 <= offsets.len(),
        forall|q: int|
            from <= q < next_nonempty(offsets, from) ==> #[trigger] offsets[q + 1] == offsets[q],
    decreases offsets.len() - from,
{
    if from + 1 < offsets.len() && offsets[from + 1] == offsets[from] {
        lemma_next_nonempty(offsets, from + 1);
    }
}

/// Starting the search anywhere between `from` and what it finds leads to the
/// same position.
pub proof fn lemma_next_nonempty_between(offsets: Seq<u64>, from: int, mid: int)
    requires
        0 <= from <= mid <= next_nonempty(offsets, from),
    ensures
        next_nonempty(offsets, mid) == next_nonempty(offsets, from),
    decreases mid - from,
{
    if from < mid {
        lemma_next_nonempty(offsets, from);
        lemma_next_nonempty_between(offsets, from + 1, mid);
    }
}

/// A reader positioned at partition `cur` of the spill at position `spill`
/// of the list being merged, with that spill's offset table.
#[derive(Debug)]
pub struct SpillCursor {
    pub cur: usize,
    pub spill: usize,
    pub offsets: Vec<u64>,
}

impl SpillCursor {
    /// No partition is left at or after `cur`.
    pub open spec fn spec_finished(&self) -> bool {
        self.cur + 1 >= self.offsets@.len()
    }

    /// Whether the cursor has passed its last partition.
    pub fn finished(&self) -> (done: bool)
        ensures
            done == self.spec_finished(),
    {
        self.offsets.len() == 0 || self.cur >= self.offsets.len() - 1
    }

    /// Whether the cursor stands at a partition that has no bytes in the spill.
    fn at_empty_partition(&self) -> (empty: bool)
        ensures
            empty == (!self.spec_finished() && self.offsets@[self.cur + 1]
                == self.offsets@[self.cur as int]),
    {
        let n: usize = self.offsets.len();
        if n == 0 || self.cur >= n - 1 {
            false
        } else {
            self.offsets[self.cur + 1] == self.offsets[self.cur]
        }
    }

    /// Moves the cursor on to the first partition at or after `cur` that has
    /// bytes, or to the end.
    pub fn skip_empty_partitions(&mut self)
        ensures
            final(self).cur == next_nonempty(old(self).offsets@, old(self).cur as int),
            final(self).offsets == old(self).offsets,
            final(self).spill == old(self).spill,
    {
        while self.at_empty_partition()
            invariant
                self.offsets == old(self).offsets,
                self.spill == old(self).spill,
                old(self).cur <= self.cur,
                next_nonempty(self.offsets@, self.cur as int) == next_nonempty(
                    old(self).offsets@,
                    old(self).cur as int,
                ),
            decreases self.offsets@.len() - self.cur,
        {
            assert(self.cur + 1 < self.offsets.len());
            self.cur += 1;
        }
    }
}

impl Ranked for SpillCursor {
    /// A cursor is ordered by its current partition alone; a finished cursor
    /// comes after every cursor that is not.
    open spec fn rank(&self) -> nat {
        if self.spec_finished() {
            usize::MAX as nat + 1
        } else {
            self.cur as nat
        }
    }

    fn less(&self, other: &Self) -> (b: bool) {
        if self.finished() {
            false
        } else if other.finished() {
            true
        } else {
            self.cur < other.cur
        }
    }
}

} // verus!
