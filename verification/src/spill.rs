//! Spills: frozen runs of serialized sub-batches, in one of three storage
//! tiers, each with the table of offsets at which its partitions begin.

use crate::sub_batch::SubBatch;
use vstd::prelude::*;

verus! {

/// Where the bytes of a spill are kept. The bytes of the two lower tiers are
/// held outside the process heap; the value records where, and how many.
#[derive(Debug)]
pub enum Spill {
    /// A contiguous blob in the process heap.
    L1(Vec<u8>),
    /// A managed off-heap buffer, known by the id that its manager issued.
    L2 { spill_id: i32, size: usize },
    /// A temporary file that holds the bytes from its start.
    L3 { path: String, size: usize },
}

impl Spill {
    /// The number of bytes that reading the spill yields.
    pub open spec fn stream_len(self) -> nat {
        match self {
            Spill::L1(data) => data@.len(),
            Spill::L2 { spill_id, size } => size as nat,
            Spill::L3 { path, size } => size as nat,
        }
    }

    /// The memory that the spill holds: the blob of an L1 spill, the buffer
    /// of an L2 spill, nothing for an L3 spill.
    pub open spec fn spec_offheap_mem_size(self) -> nat {
        match self {
            Spill::L1(data) => data@.len(),
            Spill::L2 { spill_id, size } => size as nat,
            Spill::L3 { path, size } => 0,
        }
    }

    /// A spill in the heap tier that holds `data`.
    pub fn new_l1(data: Vec<u8>) -> (spill: Spill)
        ensures
            spill == Spill::L1(data),
    {
        Spill::L1(data)
    }

    /// The memory that the spill holds.
    pub fn offheap_mem_size(&self) -> (size: usize)
        ensures
            size == self.spec_offheap_mem_size(),
    {
        match self {
            Spill::L1(data) => data.len(),
            Spill::L2 { spill_id: _, size } => *size,
            Spill::L3 { path: _, size: _ } => 0,
        }
    }

    /// The number of bytes that reading the spill yields.
    pub fn len(&self) -> (size: usize)
        ensures
            size == self.stream_len(),
    {
        match self {
            Spill::L1(data) => data.len(),
            Spill::L2 { spill_id: _, size } => *size,
            Spill::L3 { path: _, size } => *size,
        }
    }

    /// The spill once its bytes have been moved into the managed off-heap
    /// buffer `spill_id`.
    pub fn to_l2(&self, spill_id: i32) -> (spill: Spill)
        ensures
            spill == (Spill::L2 { spill_id, size: self.stream_len() as usize }),
            spill.stream_len() == self.stream_len(),
    {
        Spill::L2 { spill_id, size: self.len() }
    }

    /// The spill once its bytes have been written to the file at `path`.
    pub fn to_l3(&self, path: String) -> (spill: Spill)
        ensures
            spill == (Spill::L3 { path, size: self.stream_len() as usize }),
            spill.stream_len() == self.stream_len(),
    {
        Spill::L3 { path, size: self.len() }
    }

    /// The tier of the spill: 1, 2 or 3.
    pub fn tier(&self) -> (t: u8)
        ensures
            t == 1 <==> self is L1,
            t == 2 <==> self is L2,
            t == 3 <==> self is L3,
    {
        match self {
            Spill::L1(_) => 1,
            Spill::L2 { spill_id: _, size: _ } => 2,
            Spill::L3 { path: _, size: _ } => 3,
        }
    }
}

/// A spill together with its offset table: entry `p` is the position in the
/// spill's bytes at which partition `p` begins, and the last entry is the
/// length of the spill.
#[derive(Debug)]
pub struct ShuffleSpill {
    pub spill: Spill,
    pub offsets: Vec<u64>,
}

/// `offsets` is an offset table for `num_partitions` partitions over `len`
/// bytes: it has one entry more than there are partitions, starts at zero,
/// never decreases and ends at `len`.
pub open spec fn is_offset_table(offsets: Seq<u64>, num_partitions: usize, len: nat) -> bool {
    &&& offsets.len() == num_partitions + 1
    &&& offsets[0] == 0
    &&& forall|p: int, q: int| 0 <= p <= q <= num_partitions ==> offsets[p] <= offsets[q]
    &&& offsets[num_partitions as int] == len
}

impl ShuffleSpill {
    /// The offset table covers the spill's bytes.
    pub open spec fn wf(self, num_partitions: usize) -> bool {
        is_offset_table(self.offsets@, num_partitions, self.spill.stream_len())
    }

    /// Whether the offset table covers the spill's bytes.
    pub fn check(&self, num_partitions: usize) -> (ok: bool)
        ensures
            ok == self.wf(num_partitions),
    {
        let n: usize = self.offsets.len();
        if num_partitions == usize::MAX || n != num_partitions + 1 {
            return false;
        }
        if self.offsets[0] != 0 || self.offsets[num_partitions] != self.spill.len() as u64 {
            return false;
        }
        let mut p: usize = 0;
        while p < num_partitions
            invariant
                n == self.offsets@.len(),
                n == num_partitions + 1,
                p <= num_partitions,
                forall|a: int, b: int| 0 <= a <= b <= p ==> self.offsets@[a] <= self.offsets@[b],
            decreases num_partitions - p,
        {
            if self.offsets[p] > self.offsets[p + 1] {
                return false;
            }
            p += 1;
        }
        true
    }

    /// The number of bytes that partition `p` has in this spill.
    pub open spec fn partition_len(self, p: int) -> int {
        self.offsets@[p + 1] - self.offsets@[p]
    }
}

/// The bytes of those among the first `j` blocks whose sub-batch belongs to a
/// partition below `p`.
pub open spec fn bytes_below(plan: Seq<SubBatch>, blocks: Seq<Seq<u8>>, p: int, j: int) -> int
    decreases j,
{
    if j <= 0 {
        0
    } else {
        bytes_below(plan, blocks, p, j - 1) + if plan[j - 1].partition_id < p {
            blocks[j - 1].len() as int
        } else {
            0
        }
    }
}

/// The position at which partition `p` begins in the concatenation of
/// `blocks`: the bytes of all blocks of lower partitions.
pub open spec fn block_offset(plan: Seq<SubBatch>, blocks: Seq<Seq<u8>>, p: int) -> int {
    bytes_below(plan, blocks, p, plan.len() as int)
}

/// The sub-batches are in ascending order of partition.
pub open spec fn partitions_ascend(plan: Seq<SubBatch>) -> bool {
    forall|i: int, j: int|
        0 <= i <= j < plan.len() ==> (#[trigger] plan[i]).partition_id <= (
        #[trigger] plan[j]).partition_id
}

/// Where every one of the first `j` sub-batches lies below `p`, the bytes
/// below `p` are all the bytes of the first `j` blocks.
proof fn lemma_bytes_below_all(plan: Seq<SubBatch>, blocks: Seq<Seq<u8>>, p: int, j: int)
    requires
        0 <= j <= plan.len(),
        plan.len() == blocks.len(),
        forall|i: int| 0 <= i < j ==> (#[trigger] plan[i]).partition_id < p,
    ensures
        bytes_below(plan, blocks, p, j) == blocks.take(j).flatten().len(),
    decreases j,
{
    if j > 0 {
        lemma_bytes_below_all(plan, blocks, p, j - 1);
        assert(blocks.take(j) =~= blocks.take(j - 1).push(blocks[j - 1]));
        blocks.take(j - 1).lemma_flatten_push(blocks[j - 1]);
    } else {
        assert(blocks.take(0) =~= Seq::<Seq<u8>>::empty());
    }
}

/// Where none of the sub-batches from `from` on lies below `p`, the bytes
/// below `p` are those found among the first `from` blocks.
proof fn lemma_bytes_below_none(
    plan: Seq<SubBatch>,
    blocks: Seq<Seq<u8>>,
    p: int,
    from: int,
    j: int,
)
    requires
        0 <= from <= j <= plan.len(),
        forall|i: int| from <= i < j ==> (#[trigger] plan[i]).partition_id >= p,
    ensures
        bytes_below(plan, blocks, p, j) == bytes_below(plan, blocks, p, from),
    decreases j,
{
    if j > from {
        lemma_bytes_below_none(plan, blocks, p, from, j - 1);
    }
}

/// The offsets of two partitions are ordered as the partitions are.
pub proof fn lemma_block_offset_monotonic(
    plan: Seq<SubBatch>,
    blocks: Seq<Seq<u8>>,
    p: int,
    q: int,
    j: int,
)
    requires
        p <= q,
        0 <= j,
    ensures
        0 <= bytes_below(plan, blocks, p, j) <= bytes_below(plan, blocks, q, j),
    decreases j,
{
    if j > 0 {
        lemma_block_offset_monotonic(plan, blocks, p, q, j - 1);
    }
}

/// The blocks, among the first `j`, of the sub-batches of partition `p`, one
/// after the other.
pub open spec fn partition_blocks(plan: Seq<SubBatch>, blocks: Seq<Seq<u8>>, p: int, j: int) -> Seq<
    u8,
>
    decreases j,
{
    if j <= 0 {
        Seq::empty()
    } else if plan[j - 1].partition_id == p {
        partition_blocks(plan, blocks, p, j - 1) + blocks[j - 1]
    } else {
        partition_blocks(plan, blocks, p, j - 1)
    }
}

/// Where none of the first `j` sub-batches belongs to partition `p`, the
/// partition has no blocks among the first `j`.
proof fn lemma_partition_blocks_none(plan: Seq<SubBatch>, blocks: Seq<Seq<u8>>, p: int, j: int)
    requires
        0 <= j <= plan.len(),
        forall|i: int| 0 <= i < j ==> (#[trigger] plan[i]).partition_id != p,
    ensures
        partition_blocks(plan, blocks, p, j) == Seq::<u8>::empty(),
    decreases j,
{
    if j > 0 {
        lemma_partition_blocks_none(plan, blocks, p, j - 1);
    }
}

/// In the concatenation of the first `j` blocks, the bytes between the
/// offsets of partition `p` and of the next partition are exactly the blocks
/// of the sub-batches of partition `p`, in the order of the plan.
pub proof fn lemma_partition_blocks(plan: Seq<SubBatch>, blocks: Seq<Seq<u8>>, p: int, j: int)
    requires
        plan.len() == blocks.len(),
        partitions_ascend(plan),
        0 <= j <= plan.len(),
    ensures
        0 <= bytes_below(plan, blocks, p, j) <= bytes_below(plan, blocks, p + 1, j)
            <= blocks.take(j).flatten().len(),
        blocks.take(j).flatten().subrange(
            bytes_below(plan, blocks, p, j),
            bytes_below(plan, blocks, p + 1, j),
        ) == partition_blocks(plan, blocks, p, j),
    decreases j,
{
    let all = blocks.take(j).flatten();
    if j == 0 {
        assert(blocks.take(0) =~= Seq::<Seq<u8>>::empty());
        assert(all.subrange(0, 0) =~= Seq::<u8>::empty());
    } else {
        lemma_partition_blocks(plan, blocks, p, j - 1);
        let before = blocks.take(j - 1).flatten();
        let block = blocks[j - 1];
        assert(blocks.take(j) =~= blocks.take(j - 1).push(block));
        blocks.take(j - 1).lemma_flatten_push(block);
        assert(all =~= before + block);
        let id = plan[j - 1].partition_id as int;
        assert forall|i: int| 0 <= i < j implies (#[trigger] plan[i]).partition_id <= id by {
            assert(plan[i].partition_id <= plan[j - 1].partition_id);
        }
        if id < p {
            lemma_bytes_below_all(plan, blocks, p, j);
            lemma_bytes_below_all(plan, blocks, p + 1, j);
            lemma_partition_blocks_none(plan, blocks, p, j);
            assert(all.subrange(all.len() as int, all.len() as int) =~= Seq::<u8>::empty());
        } else if id == p {
            lemma_bytes_below_all(plan, blocks, p + 1, j);
            lemma_bytes_below_all(plan, blocks, p + 1, j - 1);
            assert(all.subrange(bytes_below(plan, blocks, p, j), all.len() as int)
                =~= before.subrange(bytes_below(plan, blocks, p, j - 1), before.len() as int)
                + block);
        } else {
            assert(all.subrange(
                bytes_below(plan, blocks, p, j),
                bytes_below(plan, blocks, p + 1, j),
            ) =~= before.subrange(
                bytes_below(plan, blocks, p, j - 1),
                bytes_below(plan, blocks, p + 1, j - 1),
            ));
        }
    }
}

/// Concatenates the serialized sub-batches into one heap spill and records
/// where each partition begins. `blocks[j]` holds the bytes of `plan[j]`.
pub fn assemble_spill(plan: &Vec<SubBatch>, blocks: &Vec<Vec<u8>>, num_partitions: usize) -> (spill:
    ShuffleSpill)
    requires
        plan.len() == blocks.len(),
        partitions_ascend(plan@),
        forall|j: int| 0 <= j < plan.len() ==> (#[trigger] plan[j]).partition_id < num_partitions,
        num_partitions < usize::MAX,
    ensures
        spill.spill matches Spill::L1(data) && data@ == blocks.deep_view().flatten(),
        spill.offsets@.len() == num_partitions + 1,
        forall|p: int|
            0 <= p <= num_partitions ==> #[trigger] spill.offsets@[p] as int == block_offset(
                plan@,
                blocks.deep_view(),
                p,
            ),
        spill.wf(num_partitions),
{
    let ghost views = blocks.deep_view();
    let mut data: Vec<u8> = Vec::new();
    let mut offsets: Vec<u64> = Vec::new();
    offsets.push(0);
    let mut cur_partition_id: usize = 0;
    let mut j: usize = 0;
    assert(views.take(0) =~= Seq::<Seq<u8>>::empty());
    while j < plan.len()
        invariant
            j <= plan.len(),
            plan.len() == blocks.len(),
            views == blocks.deep_view(),
            views.len() == blocks.len(),
            partitions_ascend(plan@),
            forall|i: int| 0 <= i < plan.len() ==> (#[trigger] plan[i]).partition_id < num_partitions,
            num_partitions < usize::MAX,
            cur_partition_id <= num_partitions,
            offsets@.len() == cur_partition_id + 1,
            data@ == views.take(j as int).flatten(),
            forall|i: int| 0 <= i < j ==> (#[trigger] plan[i]).partition_id <= cur_partition_id,
            j < plan.len() ==> cur_partition_id <= plan[j as int].partition_id,
            forall|q: int|
                0 <= q <= cur_partition_id ==> #[trigger] offsets@[q] as int == bytes_below(
                    plan@,
                    views,
                    q,
                    j as int,
                ),
        decreases plan.len() - j,
    {
        let partition_id: usize = plan[j].partition_id as usize;
        while cur_partition_id < partition_id
            invariant
                j < plan.len(),
                plan.len() == blocks.len(),
                views.len() == blocks.len(),
                partition_id == plan[j as int].partition_id,
                partition_id < num_partitions,
                cur_partition_id <= partition_id,
                offsets@.len() == cur_partition_id + 1,
                data@ == views.take(j as int).flatten(),
                forall|i: int| 0 <= i < j ==> (#[trigger] plan[i]).partition_id <= cur_partition_id,
                forall|q: int|
                    0 <= q <= cur_partition_id ==> #[trigger] offsets@[q] as int == bytes_below(
                        plan@,
                        views,
                        q,
                        j as int,
                    ),
            decreases partition_id - cur_partition_id,
        {
            proof {
                lemma_bytes_below_all(plan@, views, cur_partition_id as int + 1, j as int);
            }
            offsets.push(data.len() as u64);
            cur_partition_id += 1;
        }
        proof {
            assert(views.take(j as int + 1) =~= views.take(j as int).push(views[j as int]));
            views.take(j as int).lemma_flatten_push(views[j as int]);
            assert(views[j as int] == blocks[j as int]@);
        }
        data.extend_from_slice(blocks[j].as_slice());
        assert(data@ =~= views.take(j as int).flatten() + blocks[j as int]@);
        proof {
            if j + 1 < plan.len() {
                assert(plan[j as int].partition_id <= plan[j as int + 1].partition_id);
            }
        }
        j += 1;
    }
    proof {
        assert(views.take(plan.len() as int) =~= views);
        assert forall|q: int| cur_partition_id < q <= num_partitions implies bytes_below(
            plan@,
            views,
            q,
            plan.len() as int,
        ) == data@.len() by {
            lemma_bytes_below_all(plan@, views, q, plan.len() as int);
        }
    }
    let ghost before = offsets@;
    offsets.resize(num_partitions + 1, data.len() as u64);
    proof {
        assert forall|q: int| 0 <= q <= num_partitions implies #[trigger] offsets@[q] as int
            == block_offset(plan@, views, q) by {
            if q <= cur_partition_id {
                assert(offsets@.subrange(0, before.len() as int)[q] == before[q]);
            }
        }
        assert forall|p: int, q: int| 0 <= p <= q <= num_partitions implies offsets@[p]
            <= offsets@[q] by {
            lemma_block_offset_monotonic(plan@, views, p, q, plan.len() as int);
        }
        assert(bytes_below(plan@, views, 0, plan.len() as int) == 0) by {
            lemma_bytes_below_none(plan@, views, 0, 0, plan.len() as int);
        }
        lemma_bytes_below_all(plan@, views, num_partitions as int, plan.len() as int);
    }
    ShuffleSpill { spill: Spill::new_l1(data), offsets }
}

/// The position of the spill that is promoted next: the last of those that
/// hold the most memory.
pub open spec fn is_largest(spills: Seq<ShuffleSpill>, index: int) -> bool {
    &&& 0 <= index < spills.len()
    &&& forall|i: int|
        0 <= i < spills.len() ==> (#[trigger] spills[i]).spill.spec_offheap_mem_size()
            <= spills[index].spill.spec_offheap_mem_size()
    &&& forall|i: int|
        index < i < spills.len() ==> (#[trigger] spills[i]).spill.spec_offheap_mem_size()
            < spills[index].spill.spec_offheap_mem_size()
}

/// The position of the spill that holds the most memory; of several such, the
/// last.
pub fn largest_spill(spills: &Vec<ShuffleSpill>) -> (index: usize)
    requires
        spills.len() > 0,
    ensures
        is_largest(spills@, index as int),
{
    let mut index: usize = 0;
    let mut size: usize = spills[0].spill.offheap_mem_size();
    let mut i: usize = 1;
    while i < spills.len()
        invariant
            1 <= i <= spills.len(),
            index < i,
            size == spills[index as int].spill.spec_offheap_mem_size(),
            forall|k: int|
                0 <= k < i ==> (#[trigger] spills[k]).spill.spec_offheap_mem_size() <= size,
            forall|k: int|
                index < k < i ==> (#[trigger] spills[k]).spill.spec_offheap_mem_size() < size,
        decreases spills.len() - i,
    {
        let s: usize = spills[i].spill.offheap_mem_size();
        if s >= size {
            index = i;
            size = s;
        }
        i += 1;
    }
    index
}

} // verus!
