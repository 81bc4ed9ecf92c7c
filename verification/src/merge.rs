//! The terminal merge: the order in which the partitions of all spills are
//! copied into the data file, and the offsets that the index file records.

use crate::cursor::{lemma_next_nonempty, lemma_next_nonempty_between, next_nonempty, SpillCursor};
use crate::loser_tree::{beats, is_min, LoserTree, Ranked};
use crate::spill::ShuffleSpill;
use vstd::prelude::*;

verus! {

/// One copy of the merge: `len` bytes, found at `start` in the spill at
/// position `spill` of the list, which are that spill's bytes of `partition`.
#[derive(Clone, Copy, Debug, PartialEq, Eq, Structural)]
pub struct MergeStep {
    pub spill: usize,
    pub partition: usize,
    pub start: u64,
    pub len: u64,
}

/// The copies that produce the data file, in order, and the offset in the
/// data file at which each partition begins, with the file's length last.
#[derive(Debug)]
pub struct MergePlan {
    pub steps: Vec<MergeStep>,
    pub index: Vec<u64>,
}

/// The offset tables of the spills, in the order of the list.
pub open spec fn offset_tables(spills: Seq<ShuffleSpill>) -> Seq<Seq<u64>> {
    Seq::new(spills.len(), |s: int| spills[s].offsets@)
}

/// Every table has an entry for each of the partitions and one more, and
/// never decreases.
pub open spec fn tables_wf(tables: Seq<Seq<u64>>, num_partitions: usize) -> bool {
    forall|s: int|
        0 <= s < tables.len() ==> {
            &&& (#[trigger] tables[s]).len() == num_partitions + 1
            &&& forall|p: int, q: int|
                0 <= p <= q <= num_partitions ==> tables[s][p] <= tables[s][q]
        }
}

/// Spill `s` holds bytes of partition `p`.
pub open spec fn has_bytes(tables: Seq<Seq<u64>>, p: int, s: int) -> bool {
    tables[s][p + 1] != tables[s][p]
}

/// The copy of partition `p` of spill `s`.
pub open spec fn step_at(tables: Seq<Seq<u64>>, p: int, s: int) -> MergeStep {
    MergeStep {
        spill: s as usize,
        partition: p as usize,
        start: tables[s][p],
        len: (tables[s][p + 1] - tables[s][p]) as u64,
    }
}

/// The copies that come before partition `p` of spill `s`: those of all lower
/// partitions, spill by spill in the order of the list, and those of
/// partition `p` from the spills before `s`. A spill that holds no bytes of a
/// partition is not copied from.
pub open spec fn steps_before(tables: Seq<Seq<u64>>, p: int, s: int) -> Seq<MergeStep>
    decreases p, s,
{
    if s > 0 {
        let rest = steps_before(tables, p, s - 1);
        if has_bytes(tables, p, s - 1) {
            rest.push(step_at(tables, p, s - 1))
        } else {
            rest
        }
    } else if p > 0 {
        steps_before(tables, p - 1, tables.len() as int)
    } else {
        Seq::empty()
    }
}

/// The number of bytes that the copies before partition `p` of spill `s` put
/// into the data file.
pub open spec fn bytes_before(tables: Seq<Seq<u64>>, p: int, s: int) -> int
    decreases p, s,
{
    if s > 0 {
        bytes_before(tables, p, s - 1) + (tables[s - 1][p + 1] - tables[s - 1][p])
    } else if p > 0 {
        bytes_before(tables, p - 1, tables.len() as int)
    } else {
        0
    }
}

/// All the copies of the merge of `num_partitions` partitions.
pub open spec fn merge_steps(tables: Seq<Seq<u64>>, num_partitions: usize) -> Seq<MergeStep> {
    steps_before(tables, num_partitions as int, 0)
}

/// The offset in the data file at which partition `p` begins; for `p` equal
/// to the number of partitions, the length of the data file.
pub open spec fn merge_offset(tables: Seq<Seq<u64>>, p: int) -> int {
    bytes_before(tables, p, 0)
}

/// `(p_from, s_from)` comes before `(p_to, s_to)` in the order of the merge.
pub open spec fn pair_lt(p_from: int, s_from: int, p_to: int, s_to: int) -> bool {
    p_from < p_to || (p_from == p_to && s_from < s_to)
}

/// `(p_from, s_from)` does not come after `(p_to, s_to)` in the order of the merge.
pub open spec fn pair_le(p_from: int, s_from: int, p_to: int, s_to: int) -> bool {
    p_from < p_to || (p_from == p_to && s_from <= s_to)
}

/// Where no spill holds bytes between two positions of the merge, nothing is
/// copied between them.
proof fn lemma_skip_empty(
    tables: Seq<Seq<u64>>,
    num_partitions: usize,
    p_from: int,
    s_from: int,
    p_to: int,
    s_to: int,
)
    requires
        tables_wf(tables, num_partitions),
        0 <= p_from,
        0 <= s_from <= tables.len(),
        0 <= s_to <= tables.len(),
        pair_le(p_from, s_from, p_to, s_to),
        forall|p: int, s: int|
            0 <= s < tables.len() && pair_le(p_from, s_from, p, s) && pair_lt(p, s, p_to, s_to) ==> !has_bytes(
                tables,
                p,
                s,
            ),
    ensures
        steps_before(tables, p_to, s_to) == steps_before(tables, p_from, s_from),
        bytes_before(tables, p_to, s_to) == bytes_before(tables, p_from, s_from),
    decreases p_to, s_to,
{
    if p_from == p_to && s_from == s_to {
    } else if s_to > 0 {
        assert(!has_bytes(tables, p_to, s_to - 1));
        lemma_skip_empty(tables, num_partitions, p_from, s_from, p_to, s_to - 1);
    } else {
        lemma_skip_empty(tables, num_partitions, p_from, s_from, p_to - 1, tables.len() as int);
    }
}

/// The bytes copied grow along the order of the merge.
proof fn lemma_bytes_before_monotonic(
    tables: Seq<Seq<u64>>,
    num_partitions: usize,
    p_from: int,
    s_from: int,
    p_to: int,
    s_to: int,
)
    requires
        tables_wf(tables, num_partitions),
        0 <= p_from,
        p_to <= num_partitions,
        0 <= s_from <= tables.len(),
        0 <= s_to <= tables.len(),
        pair_le(p_from, s_from, p_to, s_to),
        p_to == num_partitions ==> s_to == 0,
    ensures
        bytes_before(tables, p_from, s_from) <= bytes_before(tables, p_to, s_to),
    decreases p_to, s_to,
{
    if p_from == p_to && s_from == s_to {
    } else if s_to > 0 {
        lemma_bytes_before_monotonic(tables, num_partitions, p_from, s_from, p_to, s_to - 1);
        assert(tables[s_to - 1][p_to] <= tables[s_to - 1][p_to + 1]);
    } else {
        lemma_bytes_before_monotonic(
            tables,
            num_partitions,
            p_from,
            s_from,
            p_to - 1,
            tables.len() as int,
        );
    }
}

/// The partition from which the cursor of spill `s` was last moved on, where
/// the merge has copied everything before partition `p` of spill `at`.
spec fn resume_from(p: int, at: int, s: int) -> int {
    if s >= at {
        p
    } else {
        p + 1
    }
}

/// What the merge knows of its cursors while everything before partition `p`
/// of spill `at` has been copied: each leaf is the cursor of one spill, in the
/// order of the list, and stands at that spill's next partition with bytes; a
/// spill without a leaf has none.
spec fn cursors_at(
    cursors: Seq<SpillCursor>,
    leaf_of: Seq<int>,
    tables: Seq<Seq<u64>>,
    num_partitions: usize,
    p: int,
    at: int,
) -> bool {
    &&& leaf_of.len() == tables.len()
    &&& forall|i: int|
        0 <= i < cursors.len() ==> {
            &&& 0 <= (#[trigger] cursors[i]).spill < tables.len()
            &&& cursors[i].offsets@ == tables[cursors[i].spill as int]
            &&& leaf_of[cursors[i].spill as int] == i
            &&& cursors[i].cur as int == next_nonempty(
                tables[cursors[i].spill as int],
                resume_from(p, at, cursors[i].spill as int),
            )
        }
    &&& forall|i: int, j: int|
        0 <= i < j < cursors.len() ==> (#[trigger] cursors[i]).spill < (#[trigger] cursors[j]).spill
    &&& forall|s: int|
        0 <= s < tables.len() ==> if #[trigger] leaf_of[s] == -1 {
            next_nonempty(tables[s], 0) >= num_partitions
        } else {
            0 <= leaf_of[s] < cursors.len() && cursors[leaf_of[s]].spill == s
        }
}

/// While the first cursor of the tournament stands at partition `p_to` of
/// spill `s_to`, no spill holds bytes between the position that the merge has
/// reached and that one.
proof fn lemma_nothing_before_top(
    cursors: Seq<SpillCursor>,
    leaf_of: Seq<int>,
    tables: Seq<Seq<u64>>,
    num_partitions: usize,
    p_from: int,
    s_from: int,
    w: int,
)
    requires
        tables_wf(tables, num_partitions),
        0 <= p_from <= num_partitions,
        0 <= s_from <= tables.len(),
        cursors_at(cursors, leaf_of, tables, num_partitions, p_from, s_from),
        is_min(cursors, w),
        !cursors[w].spec_finished(),
    ensures
        pair_le(p_from, s_from, cursors[w].cur as int, cursors[w].spill as int),
        cursors[w].cur < num_partitions,
        has_bytes(tables, cursors[w].cur as int, cursors[w].spill as int),
        forall|p: int, s: int|
            0 <= s < tables.len() && pair_le(p_from, s_from, p, s) && pair_lt(
                p,
                s,
                cursors[w].cur as int,
                cursors[w].spill as int,
            ) ==> !has_bytes(tables, p, s),
{
    let p_to = cursors[w].cur as int;
    let s_to = cursors[w].spill as int;
    lemma_next_nonempty(tables[s_to], resume_from(p_from, s_from, s_to));
    assert forall|p: int, s: int|
        0 <= s < tables.len() && pair_le(p_from, s_from, p, s) && pair_lt(p, s, p_to, s_to) implies !has_bytes(
        tables,
        p,
        s,
    ) by {
        if has_bytes(tables, p, s) {
            if leaf_of[s] == -1 {
                lemma_next_nonempty(tables[s], 0);
            } else {
                let i = leaf_of[s];
                lemma_next_nonempty(tables[s], resume_from(p_from, s_from, s));
                assert(cursors[i].cur <= p);
                assert(beats(cursors, w, i));
                if i < w {
                    assert(cursors[i].spill < cursors[w].spill);
                }
                if w < i {
                    assert(cursors[w].spill < cursors[i].spill);
                }
            }
        }
    }
}

/// After the first cursor of the tournament has been moved on from partition
/// `p_to` of its spill `s_to`, every cursor stands where the merge expects it
/// once everything up to that partition of that spill has been copied.
proof fn lemma_cursors_advance(
    before: Seq<SpillCursor>,
    after: Seq<SpillCursor>,
    leaf_of: Seq<int>,
    tables: Seq<Seq<u64>>,
    num_partitions: usize,
    p_from: int,
    s_from: int,
    w: int,
)
    requires
        tables_wf(tables, num_partitions),
        0 <= p_from <= num_partitions,
        0 <= s_from <= tables.len(),
        cursors_at(before, leaf_of, tables, num_partitions, p_from, s_from),
        is_min(before, w),
        !before[w].spec_finished(),
        after.len() == before.len(),
        forall|i: int| 0 <= i < before.len() && i != w ==> after[i] == before[i],
        after[w].spill == before[w].spill,
        after[w].offsets == before[w].offsets,
        after[w].cur as int == next_nonempty(before[w].offsets@, before[w].cur + 1),
    ensures
        cursors_at(
            after,
            leaf_of,
            tables,
            num_partitions,
            before[w].cur as int,
            before[w].spill + 1,
        ),
{
    let p_to = before[w].cur as int;
    let s_to = before[w].spill as int;
    lemma_nothing_before_top(before, leaf_of, tables, num_partitions, p_from, s_from, w);
    assert forall|i: int| 0 <= i < after.len() implies {
        &&& 0 <= (#[trigger] after[i]).spill < tables.len()
        &&& after[i].offsets@ == tables[after[i].spill as int]
        &&& leaf_of[after[i].spill as int] == i
        &&& after[i].cur as int == next_nonempty(
            tables[after[i].spill as int],
            resume_from(p_to, s_to + 1, after[i].spill as int),
        )
    } by {
        if i != w {
            let s = before[i].spill as int;
            assert(beats(before, w, i));
            if i < w {
                assert(before[i].spill < before[w].spill);
            }
            if w < i {
                assert(before[w].spill < before[i].spill);
            }
            lemma_next_nonempty(tables[s], resume_from(p_from, s_from, s));
            lemma_next_nonempty_between(
                tables[s],
                resume_from(p_from, s_from, s),
                resume_from(p_to, s_to + 1, s),
            );
        }
    }
    assert forall|i: int, j: int| 0 <= i < j < after.len() implies (#[trigger] after[i]).spill < (
    #[trigger] after[j]).spill by {
        assert(before[i].spill < before[j].spill);
    }
    assert forall|s: int| 0 <= s < tables.len() implies if #[trigger] leaf_of[s] == -1 {
        next_nonempty(tables[s], 0) >= num_partitions
    } else {
        0 <= leaf_of[s] < after.len() && after[leaf_of[s]].spill == s
    } by {
        if leaf_of[s] != -1 {
            assert(before[leaf_of[s]].spill == s);
        }
    }
}

/// Once the first cursor of the tournament is finished, no spill holds bytes
/// at or after the position that the merge has reached.
proof fn lemma_nothing_left(
    cursors: Seq<SpillCursor>,
    leaf_of: Seq<int>,
    tables: Seq<Seq<u64>>,
    num_partitions: usize,
    p_from: int,
    s_from: int,
)
    requires
        tables_wf(tables, num_partitions),
        0 <= p_from <= num_partitions,
        0 <= s_from <= tables.len(),
        cursors_at(cursors, leaf_of, tables, num_partitions, p_from, s_from),
        forall|i: int| 0 <= i < cursors.len() ==> (#[trigger] cursors[i]).spec_finished(),
    ensures
        forall|p: int, s: int|
            0 <= s < tables.len() && pair_le(p_from, s_from, p, s) && p < num_partitions ==> !has_bytes(
                tables,
                p,
                s,
            ),
{
    assert forall|p: int, s: int|
        0 <= s < tables.len() && pair_le(p_from, s_from, p, s) && p < num_partitions implies !has_bytes(
        tables,
        p,
        s,
    ) by {
        if leaf_of[s] == -1 {
            lemma_next_nonempty(tables[s], 0);
        } else {
            let i = leaf_of[s];
            assert(cursors[i].spec_finished());
            lemma_next_nonempty(tables[s], resume_from(p_from, s_from, s));
        }
    }
}

/// The number of bytes that the copies put into the data file.
pub open spec fn steps_len(steps: Seq<MergeStep>) -> int
    decreases steps.len(),
{
    if steps.len() == 0 {
        0
    } else {
        steps_len(steps.drop_last()) + steps.last().len
    }
}

/// The bytes that spill `s` holds of partition `p`.
pub open spec fn spill_range(data: Seq<Seq<u8>>, tables: Seq<Seq<u64>>, p: int, s: int) -> Seq<u8> {
    data[s].subrange(tables[s][p] as int, tables[s][p + 1] as int)
}

/// The data file as far as the copies before partition `p` of spill `s` have
/// written it, where `data[s]` holds the bytes of spill `s`.
pub open spec fn output_before(data: Seq<Seq<u8>>, tables: Seq<Seq<u64>>, p: int, s: int) -> Seq<u8>
    decreases p, s,
{
    if s > 0 {
        output_before(data, tables, p, s - 1) + spill_range(data, tables, p, s - 1)
    } else if p > 0 {
        output_before(data, tables, p - 1, tables.len() as int)
    } else {
        Seq::empty()
    }
}

/// The data file that the merge of `num_partitions` partitions writes.
pub open spec fn merged_output(data: Seq<Seq<u8>>, tables: Seq<Seq<u64>>, num_partitions: usize) -> Seq<
    u8,
> {
    output_before(data, tables, num_partitions as int, 0)
}

/// The bytes that the first `s` spills hold of partition `p`, spill after
/// spill in the order of the list.
pub open spec fn partition_output(data: Seq<Seq<u8>>, tables: Seq<Seq<u64>>, p: int, s: int) -> Seq<
    u8,
>
    decreases s,
{
    if s <= 0 {
        Seq::empty()
    } else {
        partition_output(data, tables, p, s - 1) + spill_range(data, tables, p, s - 1)
    }
}

/// What performing the copies in order writes.
pub open spec fn copied(data: Seq<Seq<u8>>, steps: Seq<MergeStep>) -> Seq<u8>
    decreases steps.len(),
{
    if steps.len() == 0 {
        Seq::empty()
    } else {
        let step = steps.last();
        copied(data, steps.drop_last()) + data[step.spill as int].subrange(
            step.start as int,
            step.start + step.len,
        )
    }
}

/// `data[s]` holds the bytes that the offset table of spill `s` speaks of.
pub open spec fn data_fits(data: Seq<Seq<u8>>, tables: Seq<Seq<u64>>, num_partitions: usize) -> bool {
    &&& data.len() == tables.len()
    &&& forall|s: int|
        0 <= s < tables.len() ==> (#[trigger] data[s]).len() >= tables[s][num_partitions as int]
}

/// The copies before a position of the merge write as many bytes as the
/// offsets say.
pub proof fn lemma_steps_len(tables: Seq<Seq<u64>>, num_partitions: usize, p: int, s: int)
    requires
        tables_wf(tables, num_partitions),
        0 <= p <= num_partitions,
        0 <= s <= tables.len(),
        p == num_partitions ==> s == 0,
    ensures
        steps_len(steps_before(tables, p, s)) == bytes_before(tables, p, s),
    decreases p, s,
{
    if s > 0 {
        lemma_steps_len(tables, num_partitions, p, s - 1);
        let rest = steps_before(tables, p, s - 1);
        let t = tables[s - 1];
        assert(t[p] <= t[p + 1]);
        if has_bytes(tables, p, s - 1) {
            assert(rest.push(step_at(tables, p, s - 1)).drop_last() =~= rest);
        }
    } else if p > 0 {
        lemma_steps_len(tables, num_partitions, p - 1, tables.len() as int);
    }
}

/// The copies before a position of the merge write the data file up to that
/// position: the bytes that the spills hold of the partitions copied, as
/// many as the offsets say.
pub proof fn lemma_steps_write_output(
    data: Seq<Seq<u8>>,
    tables: Seq<Seq<u64>>,
    num_partitions: usize,
    p: int,
    s: int,
)
    requires
        tables_wf(tables, num_partitions),
        data_fits(data, tables, num_partitions),
        tables.len() <= usize::MAX,
        0 <= p <= num_partitions,
        0 <= s <= tables.len(),
        p == num_partitions ==> s == 0,
    ensures
        output_before(data, tables, p, s).len() == bytes_before(tables, p, s),
        copied(data, steps_before(tables, p, s)) == output_before(data, tables, p, s),
    decreases p, s,
{
    if s > 0 {
        lemma_steps_write_output(data, tables, num_partitions, p, s - 1);
        let rest = steps_before(tables, p, s - 1);
        let t = tables[s - 1];
        assert(t[p] <= t[p + 1] <= t[num_partitions as int]);
        if has_bytes(tables, p, s - 1) {
            let step = step_at(tables, p, s - 1);
            assert(rest.push(step).drop_last() =~= rest);
            assert(rest.push(step).last() == step);
            assert(step.spill as int == s - 1);
            assert(step.start + step.len == t[p + 1]);
        } else {
            assert(spill_range(data, tables, p, s - 1) =~= Seq::<u8>::empty());
            assert(output_before(data, tables, p, s) =~= output_before(data, tables, p, s - 1));
        }
    } else if p > 0 {
        lemma_steps_write_output(data, tables, num_partitions, p - 1, tables.len() as int);
    }
}

/// What the merge has written before a position is as long as the offsets
/// say.
proof fn lemma_output_len(
    data: Seq<Seq<u8>>,
    tables: Seq<Seq<u64>>,
    num_partitions: usize,
    p: int,
    s: int,
)
    requires
        tables_wf(tables, num_partitions),
        data_fits(data, tables, num_partitions),
        0 <= p <= num_partitions,
        0 <= s <= tables.len(),
        p == num_partitions ==> s == 0,
    ensures
        output_before(data, tables, p, s).len() == bytes_before(tables, p, s),
    decreases p, s,
{
    if s > 0 {
        lemma_output_len(data, tables, num_partitions, p, s - 1);
        let t = tables[s - 1];
        assert(t[p] <= t[p + 1] <= t[num_partitions as int]);
    } else if p > 0 {
        lemma_output_len(data, tables, num_partitions, p - 1, tables.len() as int);
    }
}

/// The index of the merge is an offset table of the data file: it starts at
/// zero, never decreases, and ends at the number of bytes that the copies
/// write.
pub proof fn lemma_index_is_offset_table(tables: Seq<Seq<u64>>, num_partitions: usize)
    requires
        tables_wf(tables, num_partitions),
    ensures
        merge_offset(tables, 0) == 0,
        forall|p: int, q: int|
            0 <= p <= q <= num_partitions ==> merge_offset(tables, p) <= merge_offset(tables, q),
        merge_offset(tables, num_partitions as int) == steps_len(
            merge_steps(tables, num_partitions),
        ),
{
    assert forall|p: int, q: int| 0 <= p <= q <= num_partitions implies merge_offset(tables, p)
        <= merge_offset(tables, q) by {
        lemma_bytes_before_monotonic(tables, num_partitions, p, 0, q, 0);
    }
    lemma_steps_len(tables, num_partitions, num_partitions as int, 0);
}

/// What is written before a position of the merge stays as it is: it is the
/// beginning of what is written before any later position.
proof fn lemma_output_grows(
    data: Seq<Seq<u8>>,
    tables: Seq<Seq<u64>>,
    num_partitions: usize,
    p_from: int,
    s_from: int,
    p_to: int,
    s_to: int,
)
    requires
        tables_wf(tables, num_partitions),
        data_fits(data, tables, num_partitions),
        0 <= p_from,
        p_to <= num_partitions,
        0 <= s_from <= tables.len(),
        0 <= s_to <= tables.len(),
        pair_le(p_from, s_from, p_to, s_to),
        p_to == num_partitions ==> s_to == 0,
    ensures
        output_before(data, tables, p_from, s_from).len() <= output_before(data, tables, p_to, s_to).len(),
        output_before(data, tables, p_to, s_to).subrange(
            0,
            output_before(data, tables, p_from, s_from).len() as int,
        ) == output_before(data, tables, p_from, s_from),
    decreases p_to, s_to,
{
    let small = output_before(data, tables, p_from, s_from);
    if p_from == p_to && s_from == s_to {
        assert(small.subrange(0, small.len() as int) =~= small);
    } else if s_to > 0 {
        lemma_output_grows(data, tables, num_partitions, p_from, s_from, p_to, s_to - 1);
        let mid = output_before(data, tables, p_to, s_to - 1);
        assert((mid + spill_range(data, tables, p_to, s_to - 1)).subrange(0, small.len() as int)
            =~= mid.subrange(0, small.len() as int));
    } else {
        lemma_output_grows(data, tables, num_partitions, p_from, s_from, p_to - 1, tables.len() as int);
    }
}

/// What is written while partition `p` is copied from the first `s` spills
/// is what those spills hold of the partition.
proof fn lemma_output_of_partition(
    data: Seq<Seq<u8>>,
    tables: Seq<Seq<u64>>,
    p: int,
    s: int,
)
    requires
        0 <= s,
    ensures
        output_before(data, tables, p, s) == output_before(data, tables, p, 0) + partition_output(
            data,
            tables,
            p,
            s,
        ),
    decreases s,
{
    if s > 0 {
        lemma_output_of_partition(data, tables, p, s - 1);
        assert(output_before(data, tables, p, s) =~= output_before(data, tables, p, 0)
            + partition_output(data, tables, p, s));
    } else {
        assert(output_before(data, tables, p, 0) + partition_output(data, tables, p, 0)
            =~= output_before(data, tables, p, 0));
    }
}

/// The bytes of the data file between the offsets of partition `p` and of the
/// next partition are exactly the bytes that the spills hold of partition
/// `p`, spill after spill in the order of the list.
pub proof fn lemma_partition_is_contiguous(
    data: Seq<Seq<u8>>,
    tables: Seq<Seq<u64>>,
    num_partitions: usize,
    p: int,
)
    requires
        tables_wf(tables, num_partitions),
        data_fits(data, tables, num_partitions),
        0 <= p < num_partitions,
    ensures
        0 <= merge_offset(tables, p) <= merge_offset(tables, p + 1) <= merged_output(
            data,
            tables,
            num_partitions,
        ).len(),
        merged_output(data, tables, num_partitions).subrange(
            merge_offset(tables, p),
            merge_offset(tables, p + 1),
        ) == partition_output(data, tables, p, tables.len() as int),
{
    let all = merged_output(data, tables, num_partitions);
    let upper = output_before(data, tables, p + 1, 0);
    let lower = output_before(data, tables, p, 0);
    let part = partition_output(data, tables, p, tables.len() as int);
    lemma_output_len(data, tables, num_partitions, p, 0);
    lemma_output_len(data, tables, num_partitions, p + 1, 0);
    lemma_output_len(data, tables, num_partitions, num_partitions as int, 0);
    lemma_output_grows(data, tables, num_partitions, p + 1, 0, num_partitions as int, 0);
    lemma_output_of_partition(data, tables, p, tables.len() as int);
    assert(upper == lower + part);
    assert(all.subrange(merge_offset(tables, p), merge_offset(tables, p + 1)) =~= all.subrange(
        0,
        upper.len() as int,
    ).subrange(lower.len() as int, upper.len() as int));
    assert(upper.subrange(lower.len() as int, upper.len() as int) =~= part);
}

/// The number of bytes that the copies take from spill `s`.
pub open spec fn taken_from(steps: Seq<MergeStep>, s: int) -> int
    decreases steps.len(),
{
    if steps.len() == 0 {
        0
    } else if steps.last().spill == s {
        taken_from(steps.drop_last(), s) + steps.last().len
    } else {
        taken_from(steps.drop_last(), s)
    }
}

/// The copies read every spill in one pass: before the merge comes to
/// partition `p` of spill `at`, it has taken from spill `s` exactly the bytes
/// that the spill holds before partition `p`, and those of partition `p` too
/// where `s` comes before `at`. So each copy begins where the last copy from
/// its spill ended.
pub proof fn lemma_copies_are_sequential(
    tables: Seq<Seq<u64>>,
    num_partitions: usize,
    s: int,
    p: int,
    at: int,
)
    requires
        tables_wf(tables, num_partitions),
        tables.len() <= usize::MAX,
        0 <= s < tables.len(),
        0 <= p <= num_partitions,
        0 <= at <= tables.len(),
        p == num_partitions ==> at == 0,
    ensures
        taken_from(steps_before(tables, p, at), s) == tables[s][if at > s {
            p + 1
        } else {
            p
        }] - tables[s][0],
    decreases p, at,
{
    if at > 0 {
        lemma_copies_are_sequential(tables, num_partitions, s, p, at - 1);
        let rest = steps_before(tables, p, at - 1);
        let t = tables[at - 1];
        assert(t[p] <= t[p + 1]);
        if has_bytes(tables, p, at - 1) {
            let step = step_at(tables, p, at - 1);
            assert(rest.push(step).drop_last() =~= rest);
            assert(rest.push(step).last() == step);
            assert(step.spill as int == at - 1);
        }
    } else if p > 0 {
        lemma_copies_are_sequential(tables, num_partitions, s, p - 1, tables.len() as int);
    }
}

/// The bytes that the first `s` spills hold before partition `p`.
pub open spec fn held_before(tables: Seq<Seq<u64>>, p: int, s: int) -> int
    decreases s,
{
    if s <= 0 {
        0
    } else {
        held_before(tables, p, s - 1) + (tables[s - 1][p] - tables[s - 1][0])
    }
}

/// No spill holds bytes before its first partition.
proof fn lemma_held_before_start(tables: Seq<Seq<u64>>, s: int)
    ensures
        held_before(tables, 0, s) == 0,
    decreases s,
{
    if s > 0 {
        lemma_held_before_start(tables, s - 1);
    }
}

/// What has been copied before partition `p` of spill `s` is what all the
/// spills hold before partition `p` and what the first `s` spills hold of it.
proof fn lemma_bytes_before_held(tables: Seq<Seq<u64>>, p: int, s: int)
    requires
        0 <= p,
        0 <= s <= tables.len(),
    ensures
        bytes_before(tables, p, s) == held_before(tables, p, tables.len() as int) + held_before(
            tables,
            p + 1,
            s,
        ) - held_before(tables, p, s),
    decreases p, s,
{
    if s > 0 {
        lemma_bytes_before_held(tables, p, s - 1);
    } else if p > 0 {
        lemma_bytes_before_held(tables, p - 1, tables.len() as int);
    } else {
        lemma_held_before_start(tables, tables.len() as int);
    }
}

/// The data file is as long as all the spills together: the offset at which
/// partition `p` begins is the number of bytes that the spills hold before
/// partition `p`.
pub proof fn lemma_output_holds_every_spill(tables: Seq<Seq<u64>>, p: int)
    requires
        0 <= p,
    ensures
        merge_offset(tables, p) == held_before(tables, p, tables.len() as int),
{
    lemma_bytes_before_held(tables, p, 0);
}

/// Where no spill holds any bytes, and so where there is no spill at all,
/// the merge copies nothing and every offset of the index is zero.
pub proof fn lemma_merge_of_nothing(tables: Seq<Seq<u64>>, num_partitions: usize)
    requires
        tables_wf(tables, num_partitions),
        forall|s: int|
            0 <= s < tables.len() ==> (#[trigger] tables[s])[num_partitions as int] == tables[s][0],
    ensures
        merge_steps(tables, num_partitions) == Seq::<MergeStep>::empty(),
        forall|p: int| 0 <= p <= num_partitions ==> merge_offset(tables, p) == 0,
{
    assert forall|p: int| 0 <= p <= num_partitions implies merge_offset(tables, p) == 0
        && steps_before(tables, p, 0) == Seq::<MergeStep>::empty() by {
        assert forall|q: int, s: int|
            0 <= s < tables.len() && pair_le(0, 0, q, s) && pair_lt(q, s, p, 0) implies !has_bytes(
            tables,
            q,
            s,
        ) by {
            assert(tables[s][0] <= tables[s][q] <= tables[s][q + 1] <= tables[s][
                num_partitions as int
            ]);
        }
        lemma_skip_empty(tables, num_partitions, 0, 0, p, 0);
    }
    assert(steps_before(tables, num_partitions as int, 0) == Seq::<MergeStep>::empty()) by {
        assert(merge_offset(tables, num_partitions as int) == 0);
    }
}

/// Where only the spill at position `k` holds bytes, the data file is that
/// spill's bytes and the index is its offset table: empty spills change
/// nothing, wherever they stand in the list.
pub proof fn lemma_single_spill_output(
    data: Seq<Seq<u8>>,
    tables: Seq<Seq<u64>>,
    num_partitions: usize,
    k: int,
)
    requires
        tables_wf(tables, num_partitions),
        data.len() == tables.len(),
        0 <= k < tables.len(),
        tables[k][0] == 0,
        data[k].len() == tables[k][num_partitions as int],
        forall|s: int, p: int|
            0 <= s < tables.len() && s != k && 0 <= p <= num_partitions ==> #[trigger] tables[s][p]
                == 0,
    ensures
        merged_output(data, tables, num_partitions) == data[k],
        forall|p: int|
            0 <= p <= num_partitions ==> merge_offset(tables, p) == #[trigger] tables[k][p],
{
    assert forall|p: int| 0 <= p <= num_partitions implies merge_offset(tables, p)
        == #[trigger] tables[k][p] by {
        lemma_single_spill_prefix(data, tables, num_partitions, k, p, 0);
    }
    lemma_single_spill_prefix(data, tables, num_partitions, k, num_partitions as int, 0);
    assert(data[k].subrange(0, data[k].len() as int) =~= data[k]);
}

/// Where only spill `k` holds bytes, what the merge has written before any of
/// its positions is the beginning of that spill's bytes.
proof fn lemma_single_spill_prefix(
    data: Seq<Seq<u8>>,
    tables: Seq<Seq<u64>>,
    num_partitions: usize,
    k: int,
    p: int,
    s: int,
)
    requires
        tables_wf(tables, num_partitions),
        data.len() == tables.len(),
        0 <= k < tables.len(),
        tables[k][0] == 0,
        data[k].len() == tables[k][num_partitions as int],
        forall|t: int, q: int|
            0 <= t < tables.len() && t != k && 0 <= q <= num_partitions ==> #[trigger] tables[t][q]
                == 0,
        0 <= p <= num_partitions,
        0 <= s <= tables.len(),
        p == num_partitions ==> s == 0,
    ensures
        bytes_before(tables, p, s) == tables[k][if s > k {
            p + 1
        } else {
            p
        }],
        output_before(data, tables, p, s) == data[k].subrange(
            0,
            tables[k][if s > k {
                p + 1
            } else {
                p
            }] as int,
        ),
    decreases p, s,
{
    let t = tables[k];
    assert(t[0] <= t[p] <= t[num_partitions as int]);
    if s > 0 {
        lemma_single_spill_prefix(data, tables, num_partitions, k, p, s - 1);
        assert(t[p] <= t[p + 1] <= t[num_partitions as int]);
        if s - 1 == k {
            assert(output_before(data, tables, p, s) =~= data[k].subrange(0, t[p + 1] as int));
        } else {
            assert(tables[s - 1][p] == 0 && tables[s - 1][p + 1] == 0);
            assert(spill_range(data, tables, p, s - 1) =~= Seq::<u8>::empty());
            assert(output_before(data, tables, p, s) =~= output_before(data, tables, p, s - 1));
        }
    } else if p > 0 {
        lemma_single_spill_prefix(data, tables, num_partitions, k, p - 1, tables.len() as int);
    } else {
        assert(output_before(data, tables, 0, 0) =~= data[k].subrange(0, 0));
    }
}

/// A copy of an offset table.
fn copy_offsets(offsets: &Vec<u64>) -> (copy: Vec<u64>)
    ensures
        copy@ == offsets@,
{
    let mut copy: Vec<u64> = Vec::with_capacity(offsets.len());
    let mut i: usize = 0;
    while i < offsets.len()
        invariant
            i <= offsets.len(),
            copy@ == offsets@.take(i as int),
        decreases offsets.len() - i,
    {
        copy.push(offsets[i]);
        assert(offsets@.take(i as int + 1) =~= offsets@.take(i as int).push(offsets@[i as int]));
        i += 1;
    }
    assert(offsets@.take(offsets.len() as int) =~= offsets@);
    copy
}

/// Plans the terminal merge of `spills`: partition by partition, and within
/// a partition spill by spill in the order of the list, the bytes that each
/// spill holds of the partition are copied to the end of the data file. The
/// plan also gives the offset at which each partition begins in the data
/// file. There is no plan where the data file would be longer than a `u64`
/// can say.
pub fn plan_merge(spills: &Vec<ShuffleSpill>, num_partitions: usize) -> (plan: Option<MergePlan>)
    requires
        num_partitions < usize::MAX,
        forall|s: int| 0 <= s < spills.len() ==> (#[trigger] spills[s]).wf(num_partitions),
    ensures
        plan is Some <==> merge_offset(offset_tables(spills@), num_partitions as int) <= u64::MAX,
        plan matches Some(plan) ==> {
            &&& plan.steps@ == merge_steps(offset_tables(spills@), num_partitions)
            &&& plan.index@.len() == num_partitions + 1
            &&& forall|p: int|
                0 <= p <= num_partitions ==> #[trigger] plan.index@[p] as int == merge_offset(
                    offset_tables(spills@),
                    p,
                )
        },
{
    let ghost tables = offset_tables(spills@);
    assert(tables_wf(tables, num_partitions)) by {
        assert forall|s: int| 0 <= s < tables.len() implies {
            &&& (#[trigger] tables[s]).len() == num_partitions + 1
            &&& forall|p: int, q: int|
                0 <= p <= q <= num_partitions ==> tables[s][p] <= tables[s][q]
        } by {
            assert(spills[s].wf(num_partitions));
        }
    }
    let mut cursors: Vec<SpillCursor> = Vec::new();
    let ghost mut leaf_of: Seq<int> = Seq::empty();
    let mut s: usize = 0;
    while s < spills.len()
        invariant
            s <= spills.len(),
            tables == offset_tables(spills@),
            tables_wf(tables, num_partitions),
            leaf_of.len() == s,
            cursors.len() <= s,
            forall|i: int|
                0 <= i < cursors.len() ==> {
                    &&& 0 <= (#[trigger] cursors[i]).spill < s
                    &&& cursors[i].offsets@ == tables[cursors[i].spill as int]
                    &&& leaf_of[cursors[i].spill as int] == i
                    &&& cursors[i].cur as int == next_nonempty(tables[cursors[i].spill as int], 0)
                    &&& !cursors[i].spec_finished()
                },
            forall|i: int, j: int|
                0 <= i < j < cursors.len() ==> (#[trigger] cursors[i]).spill < (
                #[trigger] cursors[j]).spill,
            forall|t: int|
                0 <= t < s ==> if #[trigger] leaf_of[t] == -1 {
                    next_nonempty(tables[t], 0) >= num_partitions
                } else {
                    0 <= leaf_of[t] < cursors.len() && cursors[leaf_of[t]].spill == t
                },
        decreases spills.len() - s,
    {
        let mut cursor = SpillCursor { cur: 0, spill: s, offsets: copy_offsets(&spills[s].offsets) };
        cursor.skip_empty_partitions();
        if !cursor.finished() {
            proof {
                leaf_of = leaf_of.push(cursors.len() as int);
            }
            cursors.push(cursor);
        } else {
            proof {
                leaf_of = leaf_of.push(-1);
            }
        }
        s += 1;
    }
    let mut tree = LoserTree::new(cursors);
    let leaves: usize = tree.len();
    let mut steps: Vec<MergeStep> = Vec::new();
    let mut index: Vec<u64> = Vec::new();
    index.push(0);
    let mut pos: u64 = 0;
    let mut cur_partition_id: usize = 0;
    let ghost mut at: int = 0;
    if leaves > 0 {
        loop
            invariant_except_break
                tree.wf(),
            invariant
                tables == offset_tables(spills@),
                tables_wf(tables, num_partitions),
                tables.len() == spills.len(),
                num_partitions < usize::MAX,
                tree@.len() == leaves,
                leaves > 0,
                0 <= cur_partition_id <= num_partitions,
                0 <= at <= tables.len(),
                at == 0 || cur_partition_id < num_partitions,
                cursors_at(tree@, leaf_of, tables, num_partitions, cur_partition_id as int, at),
                steps@ == steps_before(tables, cur_partition_id as int, at),
                pos as int == bytes_before(tables, cur_partition_id as int, at),
                index@.len() == cur_partition_id + 1,
                forall|q: int|
                    0 <= q <= cur_partition_id ==> #[trigger] index@[q] as int == bytes_before(
                        tables,
                        q,
                        0,
                    ),
            ensures
                forall|i: int| 0 <= i < tree@.len() ==> (#[trigger] tree@[i]).spec_finished(),
            decreases num_partitions - cur_partition_id, tables.len() - at,
        {
            let min_spill = tree.peek();
            if min_spill.finished() {
                proof {
                    assert forall|i: int| 0 <= i < tree@.len() implies (
                    #[trigger] tree@[i]).spec_finished() by {
                        assert(beats(tree@, tree.top(), i));
                    }
                }
                break ;
            }
            let next_partition: usize = min_spill.cur;
            let spill: usize = min_spill.spill;
            let start: u64 = min_spill.offsets[next_partition];
            let end: u64 = min_spill.offsets[next_partition + 1];
            let ghost reached: int = cur_partition_id as int;
            proof {
                lemma_nothing_before_top(
                    tree@,
                    leaf_of,
                    tables,
                    num_partitions,
                    cur_partition_id as int,
                    at,
                    tree.top(),
                );
                lemma_skip_empty(
                    tables,
                    num_partitions,
                    cur_partition_id as int,
                    at,
                    next_partition as int,
                    spill as int,
                );
                assert(tables[spill as int][next_partition as int] <= tables[spill as int][
                    next_partition + 1
                ]);
            }
            while cur_partition_id < next_partition
                invariant
                    tables_wf(tables, num_partitions),
                    0 <= at <= tables.len(),
                    0 <= spill < tables.len(),
                    0 <= reached <= cur_partition_id <= next_partition < num_partitions,
                    index@.len() == cur_partition_id + 1,
                    pos as int == bytes_before(tables, next_partition as int, spill as int),
                    forall|p: int, t: int|
                        0 <= t < tables.len() && pair_le(reached, at, p, t) && pair_lt(
                            p,
                            t,
                            next_partition as int,
                            spill as int,
                        ) ==> !has_bytes(tables, p, t),
                    forall|q: int|
                        0 <= q <= cur_partition_id ==> #[trigger] index@[q] as int == bytes_before(
                            tables,
                            q,
                            0,
                        ),
                decreases next_partition - cur_partition_id,
            {
                proof {
                    lemma_skip_empty(
                        tables,
                        num_partitions,
                        cur_partition_id + 1,
                        0,
                        next_partition as int,
                        spill as int,
                    );
                }
                index.push(pos);
                cur_partition_id += 1;
            }
            let len: u64 = end - start;
            proof {
                lemma_bytes_before_monotonic(
                    tables,
                    num_partitions,
                    next_partition as int,
                    spill + 1,
                    num_partitions as int,
                    0,
                );
            }
            if len > u64::MAX - pos {
                return None;
            }
            pos = pos + len;
            steps.push(MergeStep { spill, partition: next_partition, start, len });
            let ghost before = tree@;
            let ghost w = tree.top();
            let top = tree.peek_mut();
            top.cur += 1;
            top.skip_empty_partitions();
            tree.adjust();
            proof {
                lemma_cursors_advance(
                    before,
                    tree@,
                    leaf_of,
                    tables,
                    num_partitions,
                    reached,
                    at,
                    w,
                );
                at = spill + 1;
            }
        }
    } else {
        proof {
            assert forall|i: int| 0 <= i < tree@.len() implies (#[trigger] tree@[i]).spec_finished() by {}
        }
    }
    proof {
        lemma_nothing_left(tree@, leaf_of, tables, num_partitions, cur_partition_id as int, at);
        if cur_partition_id < num_partitions {
            lemma_skip_empty(
                tables,
                num_partitions,
                cur_partition_id as int,
                at,
                num_partitions as int,
                0,
            );
        }
        assert forall|q: int| cur_partition_id < q <= num_partitions implies bytes_before(
            tables,
            q,
            0,
        ) == pos as int by {
            lemma_skip_empty(tables, num_partitions, cur_partition_id as int, at, q, 0);
        }
    }
    let ghost before = index@;
    index.resize(num_partitions + 1, pos);
    proof {
        assert forall|p: int| 0 <= p <= num_partitions implies #[trigger] index@[p] as int
            == bytes_before(tables, p, 0) by {
            if p <= cur_partition_id {
                assert(index@.subrange(0, before.len() as int)[p] == before[p]);
            }
        }
    }
    Some(MergePlan { steps, index })
}

} // verus!
