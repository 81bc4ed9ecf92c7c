//! The protocol between the repartitioner and its driver: the states, the
//! events that the driver reports, the actions that it is told to perform,
//! and what each step does to the state.

use crate::freeze::{is_freeze_plan, is_frozen};
use crate::index_file::{index_bytes, lemma_index_bytes_of_zeros};
use crate::merge::{lemma_merge_of_nothing, merge_offset, merge_steps, offset_tables, MergePlan};
use crate::spill::{is_largest, ShuffleSpill, Spill};
use crate::sub_batch::SubBatch;
use vstd::prelude::*;

verus! {

/// What the repartitioner reads of a record batch: the hash of each of its
/// rows, in row order, and the memory that its arrays occupy.
#[derive(Debug)]
pub struct Batch {
    pub hashes: Vec<u32>,
    pub mem_size: usize,
}

/// Why an operation did not take place.
#[derive(Clone, Copy, Debug, PartialEq, Eq, Structural)]
pub enum ShuffleError {
    /// The data handed in cannot be processed: more rows than a freeze can
    /// index, or serialized sub-batches that do not match the plan.
    Data,
    /// The memory for a batch was not granted.
    MemoryExhausted,
    /// The driver failed to read or write, or the output would be longer
    /// than an offset can say.
    Io,
    /// The operation is not allowed in the state that the repartitioner is in.
    ContractViolation,
}

/// The state of the repartitioner.
#[derive(Clone, Copy, Debug, PartialEq, Eq, Structural)]
pub enum Phase {
    /// Batches are accepted and a spill may be requested.
    Open,
    /// A spill is under way.
    Spilling,
    /// The terminal write is under way.
    Finalizing,
    /// The terminal write is done, or an operation has failed.
    Closed,
}

/// What the repartitioner is waiting for from its driver.
#[derive(Clone, Copy, Debug, PartialEq, Eq, Structural)]
pub enum Waiting {
    /// No operation is under way.
    Nothing,
    /// The serialized sub-batches of the pending freeze plan.
    Blocks,
    /// The outcome of moving the spill at `index` to the second tier.
    L2 { index: usize },
    /// The outcome of writing the spill at `index` to a file.
    L3 { index: usize },
    /// The completion of the writes of the data file and the index file.
    Written,
}

/// What the driver reports during a spill.
#[derive(Debug)]
pub enum SpillEvent {
    /// The memory manager asks for a spill.
    Start,
    /// The sub-batches of the pending plan, serialized, one block each.
    Encoded(Vec<Vec<u8>>),
    /// The spill to be promoted is now held in the managed buffer `spill_id`.
    L2Done { spill_id: i32 },
    /// The managed buffers are exhausted.
    L2Exhausted,
    /// The spill to be promoted is now held in the file at `path`.
    L3Done { path: String },
    /// The work failed for another reason.
    Failed,
}

/// What the driver is to do next during a spill.
#[derive(Clone, Copy, Debug, PartialEq, Eq, Structural)]
pub enum SpillAction {
    /// Serialize the sub-batches of the pending plan.
    Encode,
    /// Try to move the spill at `index` to a managed off-heap buffer.
    PromoteToL2 { index: usize },
    /// Write the spill at `index` to a temporary file.
    WriteToL3 { index: usize },
    /// The spill is over and has freed `freed` bytes.
    Done { freed: usize },
}

/// What the driver reports during the terminal write.
#[derive(Debug)]
pub enum WriteEvent {
    /// The input has ended.
    Start,
    /// The sub-batches of the pending plan, serialized, one block each.
    Encoded(Vec<Vec<u8>>),
    /// The data file and the index file have been written and flushed.
    Written,
    /// The work failed.
    Failed,
}

/// What the driver is to do next during the terminal write.
#[derive(Debug)]
pub enum WriteAction {
    /// Serialize the sub-batches of the pending plan.
    Encode,
    /// Perform the copies of the plan and write its index.
    Write(MergePlan),
    /// The write is over; `released` bytes of memory are given back.
    Done { released: usize },
}

/// The counters that the repartitioner reports.
#[derive(Clone, Copy, Debug, PartialEq, Eq, Structural)]
pub struct Metrics {
    pub mem_used: usize,
    pub spilled_bytes: usize,
    pub spill_count: usize,
}

/// The hashes of all rows of the first `count` batches, batch after batch.
pub open spec fn hashes_upto(batches: Seq<Batch>, count: int) -> Seq<u32>
    decreases count,
{
    if count <= 0 {
        Seq::empty()
    } else {
        hashes_upto(batches, count - 1) + batches[count - 1].hashes@
    }
}

/// The hashes of all rows of the batches, batch after batch: the hashes of
/// the rows of their concatenation.
pub open spec fn all_hashes(batches: Seq<Batch>) -> Seq<u32> {
    hashes_upto(batches, batches.len() as int)
}

/// Twice the memory of the arrays of the first `count` batches.
pub open spec fn reserved_upto(batches: Seq<Batch>, count: int) -> int
    decreases count,
{
    if count <= 0 {
        0
    } else {
        reserved_upto(batches, count - 1) + 2 * batches[count - 1].mem_size
    }
}

/// What a caller can know of a repartitioner.
pub struct Model {
    pub partition_id: usize,
    pub output_data_file: String,
    pub output_index_file: String,
    pub num_output_partitions: usize,
    pub batch_size: usize,
    pub phase: Phase,
    pub waiting: Waiting,
    pub buffered_batches: Seq<Batch>,
    pub buffered_mem_size: usize,
    pub spills: Seq<ShuffleSpill>,
    pub metrics: Metrics,
    pub plan: Seq<SubBatch>,
    pub current_used: usize,
    pub freed: int,
    /// The number of rows of all the batches that have been inserted.
    pub rows_inserted: nat,
    /// For each spill that has been frozen, the number of rows that it holds;
    /// until the terminal write is over, in the order of the list of spills.
    pub rows_frozen: Seq<nat>,
}

/// The sum of the numbers.
pub open spec fn total(counts: Seq<nat>) -> nat
    decreases counts.len(),
{
    if counts.len() == 0 {
        0
    } else {
        total(counts.drop_last()) + counts.last()
    }
}

/// The counts after the count at `index` has left its place and has come
/// back at the end.
pub open spec fn moved(counts: Seq<nat>, index: int) -> Seq<nat> {
    counts.remove(index).push(counts[index])
}

/// Taking one count out takes it off the sum.
pub proof fn lemma_total_remove(counts: Seq<nat>, index: int)
    requires
        0 <= index < counts.len(),
    ensures
        total(counts.remove(index)) + counts[index] == total(counts),
    decreases counts.len(),
{
    if index == counts.len() - 1 {
        assert(counts.remove(index) =~= counts.drop_last());
    } else {
        lemma_total_remove(counts.drop_last(), index);
        assert(counts.remove(index).drop_last() =~= counts.drop_last().remove(index));
    }
}

/// Moving a count to the end leaves the sum as it is.
pub proof fn lemma_total_moved(counts: Seq<nat>, index: int)
    requires
        0 <= index < counts.len(),
    ensures
        total(moved(counts, index)) == total(counts),
{
    lemma_total_remove(counts, index);
    assert(moved(counts, index).drop_last() =~= counts.remove(index));
}

/// What holds of every state that a repartitioner gets into.
///
/// There is at least one output partition. The offset table of every spill
/// covers the spill's bytes. The buffer holds no more rows than a freeze can
/// index. The memory reserved for the buffer is twice the memory of the
/// buffered batches and is part of the memory in use, and all of it while
/// there is no spill. A plan is pending exactly while its blocks are awaited,
/// and it is the freeze plan of the buffered rows. A spill is promoted only
/// while less than half of the memory has been freed, and only while nothing
/// is buffered. Every row that has been inserted is either buffered or held
/// by exactly one spill.
pub open spec fn state_wf(m: Model) -> bool {
    &&& 0 < m.num_output_partitions < usize::MAX
    &&& forall|s: int|
        0 <= s < m.spills.len() ==> (#[trigger] m.spills[s]).wf(m.num_output_partitions)
    &&& all_hashes(m.buffered_batches).len() <= 0x1_0000_0000
    &&& m.buffered_mem_size == reserved_upto(m.buffered_batches, m.buffered_batches.len() as int)
    &&& m.buffered_mem_size <= m.metrics.mem_used
    &&& m.spills.len() == 0 ==> m.metrics.mem_used == m.buffered_mem_size
    &&& match m.phase {
        Phase::Open => m.waiting == Waiting::Nothing,
        Phase::Closed => m.waiting == Waiting::Nothing,
        Phase::Spilling => m.waiting is Blocks || m.waiting is L2 || m.waiting is L3,
        Phase::Finalizing => m.waiting is Blocks || m.waiting is Written,
    }
    &&& if m.waiting is Blocks {
        &&& is_freeze_plan(
            m.plan,
            all_hashes(m.buffered_batches),
            m.num_output_partitions,
            m.batch_size,
        )
        &&& 0 <= m.freed <= usize::MAX
    } else {
        m.plan.len() == 0
    }
    &&& match m.waiting {
        Waiting::L2 { index } => index < m.spills.len() && m.freed < m.current_used / 2,
        Waiting::L3 { index } => index < m.spills.len() && m.freed < m.current_used / 2,
        _ => true,
    }
    &&& m.waiting is L2 || m.waiting is L3 || m.waiting is Written ==> m.buffered_batches.len()
        == 0
    &&& -(usize::MAX as int) <= m.freed <= 2 * (usize::MAX as int)
    &&& m.rows_inserted == all_hashes(m.buffered_batches).len() + total(m.rows_frozen)
    &&& !(m.phase is Closed) ==> m.rows_frozen.len() == m.spills.len()
}

/// The spills after the spill at `index` has left its place and has come
/// back, at the end of the list, in the tier `to`.
pub open spec fn promoted(spills: Seq<ShuffleSpill>, index: int, to: Spill) -> Seq<ShuffleSpill> {
    spills.remove(index).push(ShuffleSpill { spill: to, offsets: spills[index].offsets })
}

/// The number of bytes that a spill reports as freed.
pub open spec fn freed_bytes(freed: int) -> usize {
    if freed > usize::MAX {
        usize::MAX
    } else if freed < 0 {
        0
    } else {
        freed as usize
    }
}

/// How a spill goes on from the state `m`: while less than half of the memory
/// that was in use when the spill began has been freed, the largest spill is
/// promoted next; else the spill is over, and what it freed leaves the memory
/// account.
pub open spec fn spill_settles(m: Model, action: SpillAction, after: Model) -> bool {
    if m.freed < m.current_used / 2 {
        action matches SpillAction::PromoteToL2 { index } && is_largest(m.spills, index as int)
            && after == (Model { waiting: Waiting::L2 { index }, ..m })
    } else {
        let freed = freed_bytes(m.freed);
        let mem_used = if freed > m.metrics.mem_used {
            0
        } else {
            (m.metrics.mem_used - freed) as usize
        };
        action == (SpillAction::Done { freed }) && after == (Model {
            phase: Phase::Open,
            waiting: Waiting::Nothing,
            metrics: Metrics { mem_used, ..m.metrics },
            current_used: 0,
            freed: 0,
            ..m
        })
    }
}

/// How the terminal write goes on from the state `m`, in which nothing is
/// buffered: the spills are merged, unless the data file would be longer than
/// an offset can say.
pub open spec fn write_settles(m: Model, r: Result<WriteAction, ShuffleError>, after: Model) -> bool {
    let tables = offset_tables(m.spills);
    if merge_offset(tables, m.num_output_partitions as int) <= u64::MAX {
        &&& r matches Ok(WriteAction::Write(plan)) && {
            &&& plan.steps@ == merge_steps(tables, m.num_output_partitions)
            &&& plan.index@.len() == m.num_output_partitions + 1
            &&& forall|p: int|
                0 <= p <= m.num_output_partitions ==> #[trigger] plan.index@[p] as int
                    == merge_offset(tables, p)
        }
        &&& after == (Model { phase: Phase::Finalizing, waiting: Waiting::Written, ..m })
    } else {
        &&& r == Err::<WriteAction, ShuffleError>(ShuffleError::Io)
        &&& after == (Model { phase: Phase::Closed, waiting: Waiting::Nothing, ..m })
    }
}

/// The state after an operation has failed.
pub open spec fn failed(m: Model) -> Model {
    Model { phase: Phase::Closed, waiting: Waiting::Nothing, plan: Seq::empty(), ..m }
}

/// The state after the blocks of the pending plan have become the spill
/// `spill`: the buffer is empty, and the spill is the last of the list and
/// holds the rows that were buffered.
pub open spec fn frozen(m: Model, spill: ShuffleSpill) -> Model {
    Model {
        buffered_batches: Seq::empty(),
        buffered_mem_size: 0,
        spills: m.spills.push(spill),
        plan: Seq::empty(),
        rows_frozen: m.rows_frozen.push(all_hashes(m.buffered_batches).len()),
        ..m
    }
}

/// What comes of inserting `input` in the state `m`, with the memory for it
/// granted or not: the state with the batch buffered and its memory, counted
/// twice, added to the account; or the reason why the batch is not accepted.
pub open spec fn insert_outcome(m: Model, input: Batch, granted: bool) -> Result<
    Model,
    ShuffleError,
> {
    if m.phase != Phase::Open {
        Err(ShuffleError::ContractViolation)
    } else if !granted || m.metrics.mem_used + 2 * input.mem_size > usize::MAX {
        Err(ShuffleError::MemoryExhausted)
    } else if all_hashes(m.buffered_batches).len() + input.hashes@.len() > 0x1_0000_0000 {
        Err(ShuffleError::Data)
    } else {
        Ok(
            Model {
                buffered_batches: m.buffered_batches.push(input),
                buffered_mem_size: (m.buffered_mem_size + 2 * input.mem_size) as usize,
                metrics: Metrics {
                    mem_used: (m.metrics.mem_used + 2 * input.mem_size) as usize,
                    ..m.metrics
                },
                rows_inserted: m.rows_inserted + input.hashes@.len(),
                ..m
            },
        )
    }
}

/// The hashes of the first batches do not depend on the batches after them.
pub proof fn lemma_hashes_upto_prefix(a: Seq<Batch>, b: Seq<Batch>, count: int)
    requires
        0 <= count <= a.len() <= b.len(),
        forall|i: int| 0 <= i < count ==> a[i] == b[i],
    ensures
        hashes_upto(a, count) == hashes_upto(b, count),
        reserved_upto(a, count) == reserved_upto(b, count),
    decreases count,
{
    if count > 0 {
        lemma_hashes_upto_prefix(a, b, count - 1);
    }
}

/// `a` plus `b`, or the largest `usize` where the sum is larger.
pub open spec fn saturating_sum(a: usize, b: int) -> usize {
    if a + b > usize::MAX {
        usize::MAX
    } else {
        (a + b) as usize
    }
}

/// What one step of a spill does: the state `after` and the result `r` that
/// the event leads to from the state `m`.
pub open spec fn spill_step(
    m: Model,
    event: SpillEvent,
    r: Result<SpillAction, ShuffleError>,
    after: Model,
) -> bool {
    let rejected = r == Err::<SpillAction, ShuffleError>(ShuffleError::ContractViolation) && after
        == m;
    match event {
        SpillEvent::Start => if m.phase == Phase::Open {
            let begun = Model {
                phase: Phase::Spilling,
                current_used: m.metrics.mem_used,
                freed: m.buffered_mem_size as int,
                ..m
            };
            if m.buffered_batches.len() > 0 {
                &&& r == Ok::<SpillAction, ShuffleError>(SpillAction::Encode)
                &&& is_freeze_plan(
                    after.plan,
                    all_hashes(m.buffered_batches),
                    m.num_output_partitions,
                    m.batch_size,
                )
                &&& after == (Model { waiting: Waiting::Blocks, plan: after.plan, ..begun })
            } else {
                r matches Ok(action) && spill_settles(begun, action, after)
            }
        } else {
            rejected
        },
        SpillEvent::Encoded(blocks) => if m.phase == Phase::Spilling && m.waiting
            == Waiting::Blocks {
            if blocks@.len() == m.plan.len() {
                let spill = after.spills[m.spills.len() as int];
                &&& is_frozen(spill, m.plan, blocks.deep_view(), m.num_output_partitions)
                &&& r matches Ok(action) && spill_settles(
                    Model {
                        freed: m.freed - spill.spill.spec_offheap_mem_size(),
                        ..frozen(m, spill)
                    },
                    action,
                    after,
                )
            } else {
                r == Err::<SpillAction, ShuffleError>(ShuffleError::Data) && after == failed(m)
            }
        } else {
            rejected
        },
        SpillEvent::L2Done { spill_id } => match m.waiting {
            Waiting::L2 { index } => {
                let from = m.spills[index as int].spill;
                let to = Spill::L2 { spill_id, size: from.stream_len() as usize };
                let promoted = Model {
                    spills: promoted(m.spills, index as int, to),
                    freed: m.freed + from.spec_offheap_mem_size(),
                    rows_frozen: moved(m.rows_frozen, index as int),
                    ..m
                };
                r matches Ok(action) && spill_settles(promoted, action, after)
            },
            _ => rejected,
        },
        SpillEvent::L2Exhausted => match m.waiting {
            Waiting::L2 { index } => {
                &&& r == Ok::<SpillAction, ShuffleError>(SpillAction::WriteToL3 { index })
                &&& after == (Model { waiting: Waiting::L3 { index }, ..m })
            },
            _ => rejected,
        },
        SpillEvent::L3Done { path } => match m.waiting {
            Waiting::L3 { index } => {
                let from = m.spills[index as int].spill;
                let to = Spill::L3 { path, size: from.stream_len() as usize };
                let promoted = Model {
                    spills: promoted(m.spills, index as int, to),
                    freed: m.freed + from.spec_offheap_mem_size(),
                    rows_frozen: moved(m.rows_frozen, index as int),
                    metrics: Metrics {
                        spilled_bytes: saturating_sum(
                            m.metrics.spilled_bytes,
                            from.spec_offheap_mem_size() as int,
                        ),
                        spill_count: saturating_sum(m.metrics.spill_count, 1),
                        ..m.metrics
                    },
                    ..m
                };
                r matches Ok(action) && spill_settles(promoted, action, after)
            },
            _ => rejected,
        },
        SpillEvent::Failed => if m.phase == Phase::Spilling {
            r == Err::<SpillAction, ShuffleError>(ShuffleError::Io) && after == failed(m)
        } else {
            rejected
        },
    }
}

/// What one step of the terminal write does: the state `after` and the
/// result `r` that the event leads to from the state `m`.
pub open spec fn write_step(
    m: Model,
    event: WriteEvent,
    r: Result<WriteAction, ShuffleError>,
    after: Model,
) -> bool {
    let rejected = r == Err::<WriteAction, ShuffleError>(ShuffleError::ContractViolation) && after
        == m;
    match event {
        WriteEvent::Start => if m.phase == Phase::Open {
            if m.buffered_batches.len() > 0 {
                &&& r matches Ok(WriteAction::Encode)
                &&& is_freeze_plan(
                    after.plan,
                    all_hashes(m.buffered_batches),
                    m.num_output_partitions,
                    m.batch_size,
                )
                &&& after == (Model {
                    phase: Phase::Finalizing,
                    waiting: Waiting::Blocks,
                    current_used: 0,
                    freed: 0,
                    plan: after.plan,
                    ..m
                })
            } else {
                write_settles(m, r, after)
            }
        } else {
            rejected
        },
        WriteEvent::Encoded(blocks) => if m.phase == Phase::Finalizing && m.waiting
            == Waiting::Blocks {
            if blocks@.len() == m.plan.len() {
                let spill = after.spills[m.spills.len() as int];
                &&& is_frozen(spill, m.plan, blocks.deep_view(), m.num_output_partitions)
                &&& write_settles(frozen(m, spill), r, after)
            } else {
                r == Err::<WriteAction, ShuffleError>(ShuffleError::Data) && after == failed(m)
            }
        } else {
            rejected
        },
        WriteEvent::Written => if m.waiting == Waiting::Written {
            &&& r matches Ok(WriteAction::Done { released }) && released == m.metrics.mem_used
            &&& after == (Model {
                phase: Phase::Closed,
                waiting: Waiting::Nothing,
                spills: Seq::empty(),
                metrics: Metrics { mem_used: 0, ..m.metrics },
                ..m
            })
        } else {
            rejected
        },
        WriteEvent::Failed => if m.phase == Phase::Finalizing {
            r == Err::<WriteAction, ShuffleError>(ShuffleError::Io) && after == failed(m)
        } else {
            rejected
        },
    }
}

/// Where no batch has been inserted and no spill is held, the terminal write
/// begins with a plan that copies nothing, so the data file is empty, and
/// with an index of one zero for each partition and one more.
pub proof fn lemma_write_without_input(
    m: Model,
    r: Result<WriteAction, ShuffleError>,
    after: Model,
)
    requires
        m.phase == Phase::Open,
        m.buffered_batches.len() == 0,
        m.spills.len() == 0,
        write_step(m, WriteEvent::Start, r, after),
    ensures
        r matches Ok(WriteAction::Write(plan)) && {
            &&& plan.steps@.len() == 0
            &&& plan.index@.len() == m.num_output_partitions + 1
            &&& forall|p: int| 0 <= p <= m.num_output_partitions ==> plan.index@[p] == 0
            &&& index_bytes(plan.index@).len() == 8 * (m.num_output_partitions + 1)
            &&& forall|i: int|
                0 <= i < 8 * (m.num_output_partitions + 1) ==> index_bytes(plan.index@)[i] == 0
        },
{
    let tables = offset_tables(m.spills);
    assert(tables.len() == 0);
    lemma_merge_of_nothing(tables, m.num_output_partitions);
    match r {
        Ok(WriteAction::Write(plan)) => {
            lemma_index_bytes_of_zeros(plan.index@, plan.index@.len() as int);
        },
        _ => {},
    }
}

} // verus!
