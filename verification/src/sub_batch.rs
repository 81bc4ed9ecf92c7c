//! Cutting the sorted rows of a freeze into sub-batches: runs of rows of one
//! partition, none longer than the batch size.

use crate::sort_key::{sorted_by_rank, PI};
use vstd::prelude::*;

verus! {

/// A run of rows that is serialized as one block: the partition that all of
/// them belong to, and their positions in the batch being frozen.
#[derive(Debug)]
pub struct SubBatch {
    pub partition_id: u32,
    pub indices: Vec<u32>,
}

/// The most rows that one sub-batch holds. A batch size of zero behaves as a
/// batch size of one: every sub-batch holds at least one row.
pub open spec fn window_cap(batch_size: usize) -> int {
    if batch_size == 0 {
        1
    } else {
        batch_size as int
    }
}

/// The number of rows in the first `j` sub-batches of `plan`.
pub open spec fn rows_before(plan: Seq<SubBatch>, j: int) -> int
    decreases j,
{
    if j <= 0 {
        0
    } else {
        rows_before(plan, j - 1) + plan[j - 1].indices@.len()
    }
}

/// `sub` holds exactly the rows `pi[start..start + len]`, in that order, and
/// they all belong to the sub-batch's partition.
pub open spec fn is_window_of(sub: SubBatch, pi: Seq<PI>, start: int) -> bool {
    &&& 0 <= start
    &&& start + sub.indices@.len() <= pi.len()
    &&& forall|k: int|
        0 <= k < sub.indices@.len() ==> #[trigger] sub.indices@[k] == pi[start + k].index && pi[start
            + k].partition_id == sub.partition_id
}

/// `plan` cuts `pi` into consecutive sub-batches, each non-empty, of one
/// partition and of at most `window_cap(batch_size)` rows, and no sub-batch
/// could have taken the first row of the next one.
pub open spec fn is_plan_of(plan: Seq<SubBatch>, pi: Seq<PI>, batch_size: usize) -> bool {
    &&& rows_before(plan, plan.len() as int) == pi.len()
    &&& forall|j: int|
        0 <= j < plan.len() ==> {
            &&& 1 <= (#[trigger] plan[j]).indices@.len() <= window_cap(batch_size)
            &&& is_window_of(plan[j], pi, rows_before(plan, j))
        }
    &&& forall|j: int|
        0 <= j < plan.len() - 1 ==> (#[trigger] plan[j]).partition_id < plan[j + 1].partition_id
            || plan[j].indices@.len() == window_cap(batch_size)
}

/// The rows before a sub-batch do not depend on the sub-batches after it.
pub proof fn lemma_rows_before_prefix(a: Seq<SubBatch>, b: Seq<SubBatch>, j: int)
    requires
        0 <= j <= a.len() <= b.len(),
        forall|i: int| 0 <= i < j ==> a[i] == b[i],
    ensures
        rows_before(a, j) == rows_before(b, j),
    decreases j,
{
    if j > 0 {
        lemma_rows_before_prefix(a, b, j - 1);
    }
}

/// The sub-batch of the rows `pi_vec[start..end]`.
fn make_sub_batch(pi_vec: &Vec<PI>, start: usize, end: usize) -> (sub: SubBatch)
    requires
        start < end <= pi_vec.len(),
        forall|k: int|
            start <= k < end ==> (#[trigger] pi_vec[k]).partition_id == pi_vec[start as int].partition_id,
    ensures
        sub.partition_id == pi_vec[start as int].partition_id,
        sub.indices@.len() == end - start,
        is_window_of(sub, pi_vec@, start as int),
{
    let mut indices: Vec<u32> = Vec::with_capacity(end - start);
    let mut k: usize = start;
    while k < end
        invariant
            start <= k <= end <= pi_vec.len(),
            indices@.len() == k - start,
            forall|m: int| 0 <= m < k - start ==> #[trigger] indices@[m] == pi_vec[start + m].index,
        decreases end - k,
    {
        indices.push(pi_vec[k].index);
        k += 1;
    }
    SubBatch { partition_id: pi_vec[start].partition_id, indices }
}

/// Cuts the sorted tuples into sub-batches. A sub-batch ends where the next
/// row belongs to a higher partition, or where it has reached `batch_size`
/// rows.
pub fn plan_sub_batches(pi_vec: &Vec<PI>, batch_size: usize) -> (plan: Vec<SubBatch>)
    requires
        sorted_by_rank(pi_vec@),
    ensures
        is_plan_of(plan@, pi_vec@, batch_size),
{
    let n: usize = pi_vec.len();
    let mut plan: Vec<SubBatch> = Vec::new();
    let mut cur_slice_start: usize = 0;
    let mut cur_offset: usize = 0;
    while cur_offset < n
        invariant
            n == pi_vec.len(),
            sorted_by_rank(pi_vec@),
            cur_slice_start <= cur_offset <= n,
            cur_offset - cur_slice_start <= window_cap(batch_size),
            rows_before(plan@, plan.len() as int) == cur_slice_start,
            forall|k: int|
                cur_slice_start <= k < cur_offset ==> (#[trigger] pi_vec[k]).partition_id
                    == pi_vec[cur_slice_start as int].partition_id,
            forall|j: int|
                0 <= j < plan.len() ==> {
                    &&& 1 <= (#[trigger] plan[j]).indices@.len() <= window_cap(batch_size)
                    &&& is_window_of(plan[j], pi_vec@, rows_before(plan@, j))
                },
            forall|j: int|
                0 <= j < plan.len() - 1 ==> (#[trigger] plan[j]).partition_id < plan[j
                    + 1].partition_id || plan[j].indices@.len() == window_cap(batch_size),
            plan.len() > 0 && cur_slice_start < n ==> plan[plan.len() - 1].partition_id
                < pi_vec[cur_slice_start as int].partition_id || plan[plan.len()
                - 1].indices@.len() == window_cap(batch_size),
        decreases n - cur_offset,
    {
        if cur_slice_start < cur_offset && (pi_vec[cur_offset].partition_id
            > pi_vec[cur_slice_start].partition_id || cur_offset - cur_slice_start >= batch_size) {
            let sub = make_sub_batch(pi_vec, cur_slice_start, cur_offset);
            proof {
                let before = plan@;
                let after = plan@.push(sub);
                assert forall|j: int| 0 <= j <= before.len() implies rows_before(after, j)
                    == rows_before(before, j) by {
                    lemma_rows_before_prefix(before, after, j);
                }
                assert(rows_before(after, after.len() as int) == cur_offset);
            }
            plan.push(sub);
            cur_slice_start = cur_offset;
        }
        proof {
            crate::sort_key::lemma_rank_orders_keys(
                pi_vec[cur_slice_start as int],
                pi_vec[cur_offset as int],
            );
        }
        cur_offset += 1;
    }
    if cur_slice_start < n {
        let sub = make_sub_batch(pi_vec, cur_slice_start, n);
        proof {
            let before = plan@;
            let after = plan@.push(sub);
            assert forall|j: int| 0 <= j <= before.len() implies rows_before(after, j)
                == rows_before(before, j) by {
                lemma_rows_before_prefix(before, after, j);
            }
            assert(rows_before(after, after.len() as int) == n);
        }
        plan.push(sub);
    }
    plan
}

} // verus!
