//! The freeze plan: which rows of the buffered batches go into which
//! sub-batch, and in which order the sub-batches are written.

use crate::partition::{lemma_partition_of_bounds, partition_of};
use crate::sort_key::{lemma_rank_orders_keys, row_tuples, sort_rows, sorted_by_rank, PI};
use crate::spill::{
    block_offset, lemma_partition_blocks, partition_blocks, partitions_ascend, ShuffleSpill, Spill,
};
use crate::sub_batch::{is_plan_of, plan_sub_batches, rows_before, SubBatch};
use vstd::prelude::*;

verus! {

/// The rows of the first `j` sub-batches of `plan`, in the order in which the
/// plan writes them.
pub open spec fn rows_upto(plan: Seq<SubBatch>, j: int) -> Seq<u32>
    decreases j,
{
    if j <= 0 {
        Seq::empty()
    } else {
        rows_upto(plan, j - 1) + plan[j - 1].indices@
    }
}

/// All the rows of `plan`, in the order in which the plan writes them.
pub open spec fn plan_rows(plan: Seq<SubBatch>) -> Seq<u32> {
    rows_upto(plan, plan.len() as int)
}

/// The sort tuple of the row at position `row` of a batch whose rows have the
/// given hashes.
pub open spec fn tuple_of(hashes: Seq<u32>, num_partitions: usize, row: u32) -> PI {
    PI {
        partition_id: partition_of(hashes[row as int], num_partitions) as u32,
        hash: hashes[row as int],
        index: row,
    }
}

/// The sort tuples of `rows`, in order.
pub open spec fn tuples_of_rows(hashes: Seq<u32>, num_partitions: usize, rows: Seq<u32>) -> Seq<
    PI,
> {
    Seq::new(rows.len(), |k: int| tuple_of(hashes, num_partitions, rows[k]))
}

/// `rows` names every row of a batch of `count` rows exactly once.
pub open spec fn is_row_permutation(rows: Seq<u32>, count: nat) -> bool {
    &&& rows.len() == count
    &&& rows.no_duplicates()
    &&& forall|k: int| 0 <= k < rows.len() ==> (#[trigger] rows[k]) < count
    &&& forall|row: u32| row < count ==> rows.contains(row)
}

/// `plan` is the freeze plan of a batch whose rows have the given hashes: it
/// writes every row exactly once, in ascending order of partition, hash and
/// row position, cut into sub-batches of one partition and of at most
/// `batch_size` rows each.
pub open spec fn is_freeze_plan(
    plan: Seq<SubBatch>,
    hashes: Seq<u32>,
    num_partitions: usize,
    batch_size: usize,
) -> bool {
    let rows = plan_rows(plan);
    let tuples = tuples_of_rows(hashes, num_partitions, rows);
    &&& is_row_permutation(rows, hashes.len())
    &&& sorted_by_rank(tuples)
    &&& is_plan_of(plan, tuples, batch_size)
}

/// The rows of the first `j` sub-batches of a plan of `pi` are the first rows
/// of `pi`.
proof fn lemma_rows_upto(plan: Seq<SubBatch>, pi: Seq<PI>, batch_size: usize, j: int)
    requires
        is_plan_of(plan, pi, batch_size),
        0 <= j <= plan.len(),
    ensures
        0 <= rows_before(plan, j) <= pi.len(),
        rows_upto(plan, j).len() == rows_before(plan, j),
        forall|k: int| 0 <= k < rows_before(plan, j) ==> #[trigger] rows_upto(plan, j)[k] == pi[k].index,
    decreases j,
{
    if j > 0 {
        lemma_rows_upto(plan, pi, batch_size, j - 1);
        let start = rows_before(plan, j - 1);
        let sub = plan[j - 1];
        assert(crate::sub_batch::is_window_of(sub, pi, start));
        assert forall|k: int| 0 <= k < rows_before(plan, j) implies #[trigger] rows_upto(plan, j)[k]
            == pi[k].index by {
            if k >= start {
                assert(sub.indices@[k - start] == pi[start + (k - start)].index);
            }
        }
    }
}

/// A sorted sequence with the same tuples as the rows of a batch names every
/// row once, and each of its tuples is the tuple of the row that it names.
proof fn lemma_sorted_rows(pi: Seq<PI>, hashes: Seq<u32>, num_partitions: usize)
    requires
        num_partitions > 0,
        hashes.len() <= 0x1_0000_0000,
        pi.to_multiset() == row_tuples(hashes, num_partitions).to_multiset(),
    ensures
        pi.len() == hashes.len(),
        pi.no_duplicates(),
        forall|k: int|
            0 <= k < pi.len() ==> (#[trigger] pi[k]).index < hashes.len() && pi[k] == tuple_of(
                hashes,
                num_partitions,
                pi[k].index,
            ),
        forall|row: u32| row < hashes.len() ==> pi.contains(tuple_of(hashes, num_partitions, row)),
{
    broadcast use vstd::seq_lib::group_to_multiset_ensures;

    let all = row_tuples(hashes, num_partitions);
    assert(pi.to_multiset().len() == all.to_multiset().len());
    assert(all.no_duplicates()) by {
        assert forall|i: int, j: int| 0 <= i < all.len() && 0 <= j < all.len() && i != j implies all[i]
            != all[j] by {
            assert(all[i].index == i as u32);
            assert(all[j].index == j as u32);
        }
    }
    all.lemma_multiset_has_no_duplicates();
    pi.lemma_multiset_has_no_duplicates_conv();
    assert forall|k: int| 0 <= k < pi.len() implies (#[trigger] pi[k]).index < hashes.len() && pi[k]
        == tuple_of(hashes, num_partitions, pi[k].index) by {
        assert(pi.contains(pi[k]));
        assert(all.to_multiset().count(pi[k]) > 0);
        assert(all.contains(pi[k]));
        let i = all.index_of(pi[k]);
        assert(all[i] == pi[k]);
    }
    assert forall|row: u32| row < hashes.len() implies pi.contains(
        tuple_of(hashes, num_partitions, row),
    ) by {
        assert(all[row as int] == tuple_of(hashes, num_partitions, row));
        assert(all.contains(all[row as int]));
        assert(pi.to_multiset().count(all[row as int]) > 0);
    }
}

/// Sorts the rows with the given hashes by partition and cuts them into
/// sub-batches: the freeze plan of a batch.
pub fn freeze_plan(hashes: &Vec<u32>, num_partitions: usize, batch_size: usize) -> (plan: Vec<
    SubBatch,
>)
    requires
        num_partitions > 0,
        hashes.len() <= 0x1_0000_0000,
    ensures
        is_freeze_plan(plan@, hashes@, num_partitions, batch_size),
{
    let pi_vec = sort_rows(hashes, num_partitions);
    let plan = plan_sub_batches(&pi_vec, batch_size);
    proof {
        let pi = pi_vec@;
        let rows = plan_rows(plan@);
        lemma_sorted_rows(pi, hashes@, num_partitions);
        lemma_rows_upto(plan@, pi, batch_size, plan@.len() as int);
        let tuples = tuples_of_rows(hashes@, num_partitions, rows);
        assert(tuples =~= pi);
        assert(rows.no_duplicates()) by {
            assert forall|a: int, b: int| 0 <= a < rows.len() && 0 <= b < rows.len() && a
                != b implies rows[a] != rows[b] by {
                if rows[a] == rows[b] {
                    assert(pi[a] == pi[b]);
                }
            }
        }
        assert forall|row: u32| row < hashes@.len() implies rows.contains(row) by {
            let t = tuple_of(hashes@, num_partitions, row);
            assert(pi.contains(t));
            let k = pi.index_of(t);
            assert(rows[k] == row);
        }
    }
    plan
}

/// In a freeze plan every row of a sub-batch belongs to the sub-batch's
/// partition, the sub-batches are in ascending order of partition, and every
/// partition is one of the `num_partitions` output partitions.
pub proof fn lemma_freeze_plan_groups_rows(
    plan: Seq<SubBatch>,
    hashes: Seq<u32>,
    num_partitions: usize,
    batch_size: usize,
)
    requires
        num_partitions > 0,
        is_freeze_plan(plan, hashes, num_partitions, batch_size),
    ensures
        forall|j: int, k: int|
            0 <= j < plan.len() && 0 <= k < plan[j].indices@.len() ==> {
                &&& (#[trigger] plan[j].indices@[k]) < hashes.len()
                &&& partition_of(hashes[plan[j].indices@[k] as int], num_partitions)
                    == plan[j].partition_id
            },
        forall|j: int| 0 <= j < plan.len() ==> (#[trigger] plan[j]).partition_id < num_partitions,
        partitions_ascend(plan),
{
    let rows = plan_rows(plan);
    let tuples = tuples_of_rows(hashes, num_partitions, rows);
    assert forall|j: int| 0 <= j <= plan.len() implies 0 <= #[trigger] rows_before(plan, j)
        <= tuples.len() by {
        lemma_rows_upto(plan, tuples, batch_size, j);
    }
    assert forall|j: int, k: int| 0 <= j < plan.len() && 0 <= k < plan[j].indices@.len() implies {
        &&& (#[trigger] plan[j].indices@[k]) < hashes.len()
        &&& partition_of(hashes[plan[j].indices@[k] as int], num_partitions) == plan[j].partition_id
    } by {
        let start = rows_before(plan, j);
        assert(crate::sub_batch::is_window_of(plan[j], tuples, start));
        assert(plan[j].indices@[k] == tuples[start + k].index);
        assert(tuples[start + k] == tuple_of(hashes, num_partitions, rows[start + k]));
        lemma_partition_of_bounds(hashes[rows[start + k] as int], num_partitions);
    }
    assert forall|j: int| 0 <= j < plan.len() implies (#[trigger] plan[j]).partition_id
        < num_partitions by {
        assert(plan[j].indices@.len() >= 1);
        let row = plan[j].indices@[0];
        assert(partition_of(hashes[row as int], num_partitions) == plan[j].partition_id);
        lemma_partition_of_bounds(hashes[row as int], num_partitions);
    }
    assert forall|i: int, j: int| 0 <= i <= j < plan.len() implies (#[trigger] plan[i]).partition_id
        <= (#[trigger] plan[j]).partition_id by {
        lemma_rows_before_ascend(plan, i, j);
        let a = rows_before(plan, i);
        let b = rows_before(plan, j);
        assert(crate::sub_batch::is_window_of(plan[i], tuples, a));
        assert(crate::sub_batch::is_window_of(plan[j], tuples, b));
        assert(plan[i].indices@[0] == tuples[a + 0].index);
        assert(plan[j].indices@[0] == tuples[b + 0].index);
        lemma_rank_orders_keys(tuples[a], tuples[b]);
    }
}

/// A later sub-batch begins at a later row.
proof fn lemma_rows_before_ascend(plan: Seq<SubBatch>, i: int, j: int)
    requires
        0 <= i <= j <= plan.len(),
    ensures
        rows_before(plan, i) <= rows_before(plan, j),
    decreases j,
{
    if i < j {
        lemma_rows_before_ascend(plan, i, j - 1);
    }
}

/// Two sequences that name every row once, each in ascending order of rank,
/// name the rows in the same order.
proof fn lemma_sorted_rows_unique(
    a: Seq<u32>,
    b: Seq<u32>,
    hashes: Seq<u32>,
    num_partitions: usize,
    k: int,
)
    requires
        is_row_permutation(a, hashes.len()),
        is_row_permutation(b, hashes.len()),
        sorted_by_rank(tuples_of_rows(hashes, num_partitions, a)),
        sorted_by_rank(tuples_of_rows(hashes, num_partitions, b)),
        0 <= k <= hashes.len(),
    ensures
        forall|i: int| 0 <= i < k ==> a[i] == b[i],
    decreases k,
{
    if k > 0 {
        lemma_sorted_rows_unique(a, b, hashes, num_partitions, k - 1);
        let i = k - 1;
        let ta = tuples_of_rows(hashes, num_partitions, a);
        let tb = tuples_of_rows(hashes, num_partitions, b);
        if a[i] != b[i] {
            assert(b.contains(a[i]));
            let j = b.index_of(a[i]);
            assert(a.contains(b[i]));
            let m = a.index_of(b[i]);
            assert(j > i) by {
                if j < i {
                    assert(a[j] == b[j]);
                }
            }
            assert(m > i) by {
                if m < i {
                    assert(b[m] == a[m]);
                }
            }
            assert(tb[i].rank() <= tb[j].rank());
            assert(ta[i].rank() <= ta[m].rank());
            assert(ta[i] == tb[j]);
            assert(tb[i] == ta[m]);
            assert(ta[i].index != tb[i].index);
        }
    }
}

/// Two plans that cut the same tuples into sub-batches cut them at the same
/// places.
proof fn lemma_cuts_unique(
    a: Seq<SubBatch>,
    b: Seq<SubBatch>,
    pi: Seq<PI>,
    batch_size: usize,
    j: int,
)
    requires
        is_plan_of(a, pi, batch_size),
        is_plan_of(b, pi, batch_size),
        0 <= j <= a.len(),
    ensures
        j <= b.len(),
        rows_before(a, j) == rows_before(b, j),
        forall|i: int|
            0 <= i < j ==> (#[trigger] a[i]).partition_id == b[i].partition_id && a[i].indices@
                == b[i].indices@,
    decreases j,
{
    if j > 0 {
        lemma_cuts_unique(a, b, pi, batch_size, j - 1);
        let i = j - 1;
        let start = rows_before(a, i);
        lemma_rows_upto(a, pi, batch_size, i);
        lemma_rows_upto(a, pi, batch_size, j);
        lemma_rows_upto(b, pi, batch_size, i);
        lemma_rows_upto(a, pi, batch_size, a.len() as int);
        lemma_rows_upto(b, pi, batch_size, b.len() as int);
        lemma_rows_before_ascend(b, i, b.len() as int);
        assert(i < b.len()) by {
            if i >= b.len() {
                assert(a[i].indices@.len() >= 1);
                lemma_rows_before_ascend(a, j, a.len() as int);
            }
        }
        lemma_rows_upto(b, pi, batch_size, j);
        let x = a[i];
        let y = b[i];
        assert(crate::sub_batch::is_window_of(x, pi, start));
        assert(crate::sub_batch::is_window_of(y, pi, start));
        assert(x.indices@[0] == pi[start + 0].index);
        assert(y.indices@[0] == pi[start + 0].index);
        assert(x.partition_id == y.partition_id);
        if x.indices@.len() < y.indices@.len() {
            lemma_cut_is_greedy(a, b, pi, batch_size, i);
        }
        if y.indices@.len() < x.indices@.len() {
            lemma_cut_is_greedy(b, a, pi, batch_size, i);
        }
        assert(x.indices@ =~= y.indices@) by {
            assert forall|k: int| 0 <= k < x.indices@.len() implies x.indices@[k]
                == y.indices@[k] by {
                assert(x.indices@[k] == pi[start + k].index);
                assert(y.indices@[k] == pi[start + k].index);
            }
        }
    }
}

/// No plan has, from the row at which sub-batch `i` of the plan `a` begins, a
/// longer sub-batch than `a` has.
proof fn lemma_cut_is_greedy(
    a: Seq<SubBatch>,
    b: Seq<SubBatch>,
    pi: Seq<PI>,
    batch_size: usize,
    i: int,
)
    requires
        is_plan_of(a, pi, batch_size),
        is_plan_of(b, pi, batch_size),
        0 <= i < a.len(),
        0 <= i < b.len(),
        rows_before(a, i) == rows_before(b, i),
    ensures
        b[i].indices@.len() <= a[i].indices@.len(),
{
    let start = rows_before(a, i);
    let x = a[i];
    let y = b[i];
    if x.indices@.len() < y.indices@.len() {
        let end = start + x.indices@.len();
        lemma_rows_upto(a, pi, batch_size, i + 1);
        lemma_rows_upto(a, pi, batch_size, a.len() as int);
        lemma_rows_upto(b, pi, batch_size, i + 1);
        assert(crate::sub_batch::is_window_of(x, pi, start));
        assert(crate::sub_batch::is_window_of(y, pi, start));
        assert(i + 1 < a.len()) by {
            if i + 1 >= a.len() {
                assert(rows_before(a, i + 1) == pi.len());
            }
        }
        let next = a[i + 1];
        assert(crate::sub_batch::is_window_of(next, pi, end));
        assert(next.indices@.len() >= 1);
        assert(next.indices@[0] == pi[end + 0].index);
        assert(pi[end + 0].partition_id == next.partition_id);
        assert(x.indices@[0] == pi[start + 0].index);
        assert(y.indices@[0] == pi[start + 0].index);
        let k = x.indices@.len() as int;
        assert(y.indices@[k] == pi[start + k].index);
        assert(pi[start + k].partition_id == y.partition_id);
        assert(x.partition_id < next.partition_id || x.indices@.len()
            == crate::sub_batch::window_cap(batch_size));
    }
}

/// A batch has one freeze plan: two plans of the same rows hold the same
/// sub-batches, with the same rows in the same order.
pub proof fn lemma_freeze_plan_unique(
    a: Seq<SubBatch>,
    b: Seq<SubBatch>,
    hashes: Seq<u32>,
    num_partitions: usize,
    batch_size: usize,
)
    requires
        is_freeze_plan(a, hashes, num_partitions, batch_size),
        is_freeze_plan(b, hashes, num_partitions, batch_size),
    ensures
        a.len() == b.len(),
        forall|j: int|
            0 <= j < a.len() ==> (#[trigger] a[j]).partition_id == b[j].partition_id
                && a[j].indices@ == b[j].indices@,
{
    let rows_a = plan_rows(a);
    let rows_b = plan_rows(b);
    lemma_sorted_rows_unique(rows_a, rows_b, hashes, num_partitions, hashes.len() as int);
    assert(rows_a =~= rows_b);
    let pi = tuples_of_rows(hashes, num_partitions, rows_a);
    assert(tuples_of_rows(hashes, num_partitions, rows_b) =~= pi);
    lemma_cuts_unique(a, b, pi, batch_size, a.len() as int);
    lemma_cuts_unique(b, a, pi, batch_size, b.len() as int);
}

/// `spill` is what a freeze produces from the serialized sub-batches of its
/// plan: a heap spill of the blocks in order, with the offset at which each
/// partition begins.
pub open spec fn is_frozen(
    spill: ShuffleSpill,
    plan: Seq<SubBatch>,
    blocks: Seq<Seq<u8>>,
    num_partitions: usize,
) -> bool {
    &&& spill.spill matches Spill::L1(data) && data@ == blocks.flatten()
    &&& spill.offsets@.len() == num_partitions + 1
    &&& forall|p: int|
        0 <= p <= num_partitions ==> #[trigger] spill.offsets@[p] as int == block_offset(
            plan,
            blocks,
            p,
        )
    &&& spill.wf(num_partitions)
}

/// In a spill frozen from a freeze plan, the bytes between the offsets of
/// partition `p` and of the next partition are exactly the blocks of the
/// sub-batches of partition `p`, and every row of those sub-batches hashes to
/// partition `p`.
pub proof fn lemma_frozen_partition(
    spill: ShuffleSpill,
    plan: Seq<SubBatch>,
    blocks: Seq<Seq<u8>>,
    hashes: Seq<u32>,
    num_partitions: usize,
    batch_size: usize,
    p: int,
)
    requires
        num_partitions > 0,
        0 <= p < num_partitions,
        plan.len() == blocks.len(),
        is_freeze_plan(plan, hashes, num_partitions, batch_size),
        is_frozen(spill, plan, blocks, num_partitions),
    ensures
        spill.spill matches Spill::L1(data) && spill.offsets@[p] <= spill.offsets@[p + 1]
            <= data@.len() && data@.subrange(
            spill.offsets@[p] as int,
            spill.offsets@[p + 1] as int,
        ) == partition_blocks(plan, blocks, p, plan.len() as int),
        forall|j: int, k: int|
            0 <= j < plan.len() && plan[j].partition_id == p && 0 <= k < plan[j].indices@.len()
                ==> partition_of(hashes[(#[trigger] plan[j].indices@[k]) as int], num_partitions)
                == p,
{
    lemma_freeze_plan_groups_rows(plan, hashes, num_partitions, batch_size);
    lemma_partition_blocks(plan, blocks, p, plan.len() as int);
    assert(blocks.take(plan.len() as int) =~= blocks);
}

} // verus!
