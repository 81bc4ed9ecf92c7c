//! The repartitioner: the buffer of inserted batches, the list of spills and
//! the memory account, advanced step by step by a driver that performs the
//! work on batches, buffers and files.

use crate::freeze::{freeze_plan, is_freeze_plan, is_frozen, lemma_freeze_plan_groups_rows};
use crate::merge::plan_merge;
use crate::protocol::{
    all_hashes, failed, frozen, hashes_upto, insert_outcome, lemma_hashes_upto_prefix,
    lemma_total_moved, moved, promoted, reserved_upto, spill_settles, spill_step, state_wf, total,
    write_settles, write_step, Batch, Metrics, Model, Phase, ShuffleError, SpillAction, SpillEvent,
    Waiting, WriteAction, WriteEvent,
};
use crate::spill::{assemble_spill, largest_spill, ShuffleSpill, Spill};
use crate::sub_batch::SubBatch;
use vstd::prelude::*;

verus! {

/// Accepts batches, plans freezes, spills and the terminal merge, and keeps
/// the memory account. It performs no work on batches, buffers or files
/// itself: each operation tells the driver what is to be done next, and the
/// driver reports back what came of it.
pub struct SortShuffleRepartitioner {
    partition_id: usize,
    output_data_file: String,
    output_index_file: String,
    num_output_partitions: usize,
    batch_size: usize,
    phase: Phase,
    waiting: Waiting,
    buffered_batches: Vec<Batch>,
    buffered_rows: u64,
    buffered_mem_size: usize,
    spills: Vec<ShuffleSpill>,
    metrics: Metrics,
    plan: Vec<SubBatch>,
    current_used: usize,
    freed: i128,
    rows_inserted: Ghost<nat>,
    rows_frozen: Ghost<Seq<nat>>,
}

impl View for SortShuffleRepartitioner {
    type V = Model;

    closed spec fn view(&self) -> Model {
        Model {
            partition_id: self.partition_id,
            output_data_file: self.output_data_file,
            output_index_file: self.output_index_file,
            num_output_partitions: self.num_output_partitions,
            batch_size: self.batch_size,
            phase: self.phase,
            waiting: self.waiting,
            buffered_batches: self.buffered_batches@,
            buffered_mem_size: self.buffered_mem_size,
            spills: self.spills@,
            metrics: self.metrics,
            plan: self.plan@,
            current_used: self.current_used,
            freed: self.freed as int,
            rows_inserted: self.rows_inserted@,
            rows_frozen: self.rows_frozen@,
        }
    }
}

impl SortShuffleRepartitioner {
    /// The invariant of the repartitioner: that of its state, and the count
    /// of the buffered rows.
    pub closed spec fn wf(&self) -> bool {
        &&& state_wf(self@)
        &&& self.buffered_rows == all_hashes(self.buffered_batches@).len()
    }

    /// A well-formed repartitioner is in a state that meets the invariant of
    /// the protocol.
    pub proof fn lemma_invariant(&self)
        requires
            self.wf(),
        ensures
            state_wf(self@),
    {
    }

    /// No row is lost and none is held twice: the rows that have been inserted
    /// are the rows that are buffered and the rows that the spills hold; and
    /// once the merge has been planned, the spills hold them all.
    pub proof fn lemma_rows_are_conserved(&self)
        requires
            self.wf(),
        ensures
            self@.rows_inserted == all_hashes(self@.buffered_batches).len() + total(
                self@.rows_frozen,
            ),
            self@.waiting is Written ==> total(self@.rows_frozen) == self@.rows_inserted,
    {
    }

    /// A repartitioner for `num_output_partitions` output partitions that
    /// writes sub-batches of at most `batch_size` rows. The paths of the two
    /// output files and `partition_id` are kept for the driver.
    pub fn new(
        partition_id: usize,
        output_data_file: String,
        output_index_file: String,
        num_output_partitions: usize,
        batch_size: usize,
    ) -> (repartitioner: Self)
        requires
            0 < num_output_partitions < usize::MAX,
        ensures
            repartitioner.wf(),
            repartitioner@ == (Model {
                partition_id,
                output_data_file,
                output_index_file,
                num_output_partitions,
                batch_size,
                phase: Phase::Open,
                waiting: Waiting::Nothing,
                buffered_batches: Seq::empty(),
                buffered_mem_size: 0,
                spills: Seq::empty(),
                metrics: Metrics { mem_used: 0, spilled_bytes: 0, spill_count: 0 },
                plan: Seq::empty(),
                current_used: 0,
                freed: 0,
                rows_inserted: 0,
                rows_frozen: Seq::empty(),
            }),
    {
        SortShuffleRepartitioner {
            partition_id,
            output_data_file,
            output_index_file,
            num_output_partitions,
            batch_size,
            phase: Phase::Open,
            waiting: Waiting::Nothing,
            buffered_batches: Vec::new(),
            buffered_rows: 0,
            buffered_mem_size: 0,
            spills: Vec::new(),
            metrics: Metrics { mem_used: 0, spilled_bytes: 0, spill_count: 0 },
            plan: Vec::new(),
            current_used: 0,
            freed: 0,
            rows_inserted: Ghost(0),
            rows_frozen: Ghost(Seq::empty()),
        }
    }

    /// The memory to ask for before `input` is inserted: twice the memory of
    /// its arrays, so that a freeze can hold the batch and its serialized
    /// form at once. `None` where that is more than a `usize` can say.
    pub fn mem_increase(input: &Batch) -> (increase: Option<usize>)
        ensures
            increase == if 2 * input.mem_size <= usize::MAX {
                Some((2 * input.mem_size) as usize)
            } else {
                None
            },
    {
        input.mem_size.checked_mul(2)
    }

    /// Appends `input` to the buffer and accounts for its memory. `granted`
    /// says whether the memory manager has granted `mem_increase(input)`.
    pub fn insert_batch(&mut self, input: Batch, granted: bool) -> (r: Result<(), ShuffleError>)
        requires
            old(self).wf(),
        ensures
            final(self).wf(),
            match insert_outcome(old(self)@, input, granted) {
                Ok(m) => r is Ok && final(self)@ == m,
                Err(e) => r == Err::<(), ShuffleError>(e) && final(self)@ == old(self)@,
            },
    {
        if self.phase != Phase::Open {
            return Err(ShuffleError::ContractViolation);
        }
        if !granted {
            return Err(ShuffleError::MemoryExhausted);
        }
        let mem_increase: usize = match input.mem_size.checked_mul(2) {
            Some(m) => m,
            None => {
                return Err(ShuffleError::MemoryExhausted);
            },
        };
        if mem_increase > usize::MAX - self.metrics.mem_used {
            return Err(ShuffleError::MemoryExhausted);
        }
        let rows: u64 = input.hashes.len() as u64;
        if rows > 0x1_0000_0000 - self.buffered_rows {
            return Err(ShuffleError::Data);
        }
        proof {
            let before = self.buffered_batches@;
            let after = before.push(input);
            lemma_hashes_upto_prefix(before, after, before.len() as int);
        }
        self.metrics.mem_used = self.metrics.mem_used + mem_increase;
        self.buffered_mem_size = self.buffered_mem_size + mem_increase;
        self.buffered_rows = self.buffered_rows + rows;
        self.rows_inserted = Ghost(self.rows_inserted@ + input.hashes@.len());
        self.buffered_batches.push(input);
        Ok(())
    }

    /// The name of the operator.
    pub fn name(&self) -> (name: &'static str)
        ensures
            name@ == "sort repartitioner"@,
    {
        "sort repartitioner"
    }

    /// The name under which the operator asks for memory.
    pub fn consumer_name(&self) -> (name: &'static str)
        ensures
            name@ == "SortShuffleRepartitioner"@,
    {
        "SortShuffleRepartitioner"
    }

    /// The partition that the operator works for: the id under which it asks
    /// for memory.
    pub fn id(&self) -> (id: usize)
        ensures
            id == self@.partition_id,
    {
        self.partition_id
    }

    /// The path of the data file.
    pub fn output_data_file(&self) -> (path: &String)
        ensures
            *path == self@.output_data_file,
    {
        &self.output_data_file
    }

    /// The path of the index file.
    pub fn output_index_file(&self) -> (path: &String)
        ensures
            *path == self@.output_index_file,
    {
        &self.output_index_file
    }

    /// The number of rows that a sub-batch holds at most.
    pub fn batch_size(&self) -> (size: usize)
        ensures
            size == self@.batch_size,
    {
        self.batch_size
    }

    /// The number of output partitions.
    pub fn num_output_partitions(&self) -> (n: usize)
        ensures
            n == self@.num_output_partitions,
    {
        self.num_output_partitions
    }

    /// The memory that is accounted to the operator.
    pub fn mem_used(&self) -> (used: usize)
        ensures
            used == self@.metrics.mem_used,
    {
        self.metrics.mem_used
    }

    /// The bytes that have been written to temporary files.
    pub fn spilled_bytes(&self) -> (bytes: usize)
        ensures
            bytes == self@.metrics.spilled_bytes,
    {
        self.metrics.spilled_bytes
    }

    /// The number of spills that have been written to temporary files.
    pub fn spill_count(&self) -> (count: usize)
        ensures
            count == self@.metrics.spill_count,
    {
        self.metrics.spill_count
    }

    /// The state of the operator.
    pub fn phase(&self) -> (phase: Phase)
        ensures
            phase == self@.phase,
    {
        self.phase
    }

    /// The spills, in the order of the list.
    pub fn spills(&self) -> (spills: &Vec<ShuffleSpill>)
        ensures
            spills@ == self@.spills,
    {
        &self.spills
    }

    /// The sub-batches that the driver is to serialize: the pending freeze
    /// plan. Their indices are row positions in the concatenation of the
    /// buffered batches.
    pub fn pending_sub_batches(&self) -> (plan: &Vec<SubBatch>)
        ensures
            plan@ == self@.plan,
    {
        &self.plan
    }

    /// The invariant but for what it says of the driver's pending work,
    /// while a spill has just gained or moved a spill.
    spec fn wf_settling(&self) -> bool {
        &&& 0 < self.num_output_partitions < usize::MAX
        &&& forall|s: int|
            0 <= s < self.spills@.len() ==> (#[trigger] self.spills@[s]).wf(self.num_output_partitions)
        &&& self.spills@.len() > 0 || (self.freed == 0 && self.current_used == 0
            && self.metrics.mem_used == 0)
        &&& self.buffered_batches@.len() == 0
        &&& self.buffered_rows == 0
        &&& self.buffered_mem_size == 0
        &&& self.plan@.len() == 0
        &&& self.phase == Phase::Spilling
        &&& -(usize::MAX as int) <= self.freed <= 2 * (usize::MAX as int)
        &&& self.rows_inserted@ == total(self.rows_frozen@)
        &&& self.rows_frozen@.len() == self.spills@.len()
    }

    /// Decides how a spill goes on: with the promotion of the largest spill,
    /// or not at all.
    fn settle(&mut self) -> (action: SpillAction)
        requires
            old(self).wf_settling(),
        ensures
            final(self).wf(),
            spill_settles(old(self)@, action, final(self)@),
    {
        if self.freed < (self.current_used / 2) as i128 {
            let index: usize = largest_spill(&self.spills);
            self.waiting = Waiting::L2 { index };
            SpillAction::PromoteToL2 { index }
        } else {
            let freed: usize = if self.freed > usize::MAX as i128 {
                usize::MAX
            } else {
                self.freed as usize
            };
            self.metrics.mem_used = if freed > self.metrics.mem_used {
                0
            } else {
                self.metrics.mem_used - freed
            };
            self.phase = Phase::Open;
            self.waiting = Waiting::Nothing;
            self.current_used = 0;
            self.freed = 0;
            SpillAction::Done { freed }
        }
    }

    /// Gives the operation under way up.
    fn fail(&mut self)
        requires
            old(self).wf(),
        ensures
            final(self).wf(),
            final(self)@ == failed(old(self)@),
    {
        self.phase = Phase::Closed;
        self.waiting = Waiting::Nothing;
        self.plan = Vec::new();
    }

    /// Plans the freeze of the buffered batches.
    fn plan_freeze(&mut self)
        requires
            old(self).wf(),
            old(self).phase == Phase::Open,
        ensures
            is_freeze_plan(
                final(self).plan@,
                all_hashes(old(self).buffered_batches@),
                old(self).num_output_partitions,
                old(self).batch_size,
            ),
            final(self)@ == (Model { plan: final(self)@.plan, ..old(self)@ }),
            final(self).buffered_rows == old(self).buffered_rows,
    {
        let mut hashes: Vec<u32> = Vec::new();
        let mut i: usize = 0;
        while i < self.buffered_batches.len()
            invariant
                i <= self.buffered_batches.len(),
                *self == *old(self),
                hashes@ == hashes_upto(self.buffered_batches@, i as int),
            decreases self.buffered_batches.len() - i,
        {
            let batch = &self.buffered_batches[i];
            let mut k: usize = 0;
            while k < batch.hashes.len()
                invariant
                    k <= batch.hashes.len(),
                    hashes@ == hashes_upto(self.buffered_batches@, i as int) + batch.hashes@.take(
                        k as int,
                    ),
                decreases batch.hashes.len() - k,
            {
                hashes.push(batch.hashes[k]);
                assert(batch.hashes@.take(k as int + 1) =~= batch.hashes@.take(k as int).push(
                    batch.hashes@[k as int],
                ));
                k += 1;
            }
            assert(batch.hashes@.take(batch.hashes@.len() as int) =~= batch.hashes@);
            i += 1;
        }
        self.plan = freeze_plan(&hashes, self.num_output_partitions, self.batch_size);
    }

    /// Freezes the buffer: the blocks of the pending plan become one heap
    /// spill with its offset table, the buffer is emptied and the memory
    /// reserved for it is set to zero.
    fn spill_buffered_to_l1(&mut self, blocks: &Vec<Vec<u8>>) -> (spill: ShuffleSpill)
        requires
            old(self).wf(),
            old(self).waiting == Waiting::Blocks,
            blocks@.len() == old(self).plan@.len(),
        ensures
            is_frozen(
                spill,
                old(self)@.plan,
                blocks.deep_view(),
                old(self)@.num_output_partitions,
            ),
            final(self)@ == (Model {
                buffered_batches: Seq::empty(),
                buffered_mem_size: 0,
                plan: Seq::empty(),
                ..old(self)@
            }),
            final(self).buffered_rows == 0,
            0 < final(self).num_output_partitions < usize::MAX,
            0 <= final(self).freed <= usize::MAX,
            final(self).rows_inserted@ == all_hashes(old(self).buffered_batches@).len() + total(
                final(self).rows_frozen@,
            ),
            final(self).rows_frozen@.len() == final(self).spills@.len(),
    {
        proof {
            lemma_freeze_plan_groups_rows(
                self.plan@,
                all_hashes(self.buffered_batches@),
                self.num_output_partitions,
                self.batch_size,
            );
        }
        let spill = assemble_spill(&self.plan, blocks, self.num_output_partitions);
        self.buffered_batches = Vec::new();
        self.buffered_rows = 0;
        self.buffered_mem_size = 0;
        self.plan = Vec::new();
        spill
    }

    /// Puts the spill at `index` at the end of the list, in the tier `to`.
    fn promote(&mut self, index: usize, to: Spill) -> (size: usize)
        requires
            old(self).wf(),
            old(self).phase == Phase::Spilling,
            index < old(self).spills@.len(),
            to.stream_len() == old(self).spills@[index as int].spill.stream_len(),
        ensures
            size == old(self).spills@[index as int].spill.spec_offheap_mem_size(),
            final(self)@ == (Model {
                spills: promoted(old(self)@.spills, index as int, to),
                rows_frozen: moved(old(self)@.rows_frozen, index as int),
                ..old(self)@
            }),
            total(final(self)@.rows_frozen) == total(old(self)@.rows_frozen),
            final(self).buffered_rows == old(self).buffered_rows,
            forall|s: int|
                0 <= s < final(self).spills@.len() ==> (#[trigger] final(self).spills@[s]).wf(
                    final(self).num_output_partitions,
                ),
    {
        let from = self.spills.remove(index);
        let size: usize = from.spill.offheap_mem_size();
        let promoted = ShuffleSpill { spill: to, offsets: from.offsets };
        assert(promoted.wf(self.num_output_partitions));
        self.spills.push(promoted);
        proof {
            lemma_total_moved(self.rows_frozen@, index as int);
        }
        self.rows_frozen = Ghost(moved(self.rows_frozen@, index as int));
        size
    }

    /// One step of a spill, the operation by which the memory manager has
    /// memory freed. A spill begins with the event `Start`, and each result
    /// tells the driver what to do before it reports the next event: the
    /// buffered batches are frozen into a new heap spill, and spills are
    /// promoted, the largest first, until half of the memory that was in use
    /// has been freed.
    pub fn spill(&mut self, event: SpillEvent) -> (r: Result<SpillAction, ShuffleError>)
        requires
            old(self).wf(),
        ensures
            final(self).wf(),
            spill_step(old(self)@, event, r, final(self)@),
    {
        match event {
            SpillEvent::Start => {
                if self.phase != Phase::Open {
                    return Err(ShuffleError::ContractViolation);
                }
                self.current_used = self.metrics.mem_used;
                self.freed = self.buffered_mem_size as i128;
                if self.buffered_batches.len() > 0 {
                    self.plan_freeze();
                    self.phase = Phase::Spilling;
                    self.waiting = Waiting::Blocks;
                    Ok(SpillAction::Encode)
                } else {
                    self.phase = Phase::Spilling;
                    Ok(self.settle())
                }
            },
            SpillEvent::Encoded(blocks) => {
                if self.phase != Phase::Spilling || self.waiting != Waiting::Blocks {
                    return Err(ShuffleError::ContractViolation);
                }
                if blocks.len() != self.plan.len() {
                    self.fail();
                    return Err(ShuffleError::Data);
                }
                let ghost rows = all_hashes(self.buffered_batches@).len();
                let in_mem_spill = self.spill_buffered_to_l1(&blocks);
                self.freed = self.freed - in_mem_spill.spill.offheap_mem_size() as i128;
                self.spills.push(in_mem_spill);
                proof {
                    assert(self.rows_frozen@.push(rows).drop_last() =~= self.rows_frozen@);
                }
                self.rows_frozen = Ghost(self.rows_frozen@.push(rows));
                Ok(self.settle())
            },
            SpillEvent::L2Done { spill_id } => {
                match self.waiting {
                    Waiting::L2 { index } => {
                        let to = self.spills[index].spill.to_l2(spill_id);
                        let size: usize = self.promote(index, to);
                        self.freed = self.freed + size as i128;
                        Ok(self.settle())
                    },
                    _ => Err(ShuffleError::ContractViolation),
                }
            },
            SpillEvent::L2Exhausted => {
                match self.waiting {
                    Waiting::L2 { index } => {
                        self.waiting = Waiting::L3 { index };
                        Ok(SpillAction::WriteToL3 { index })
                    },
                    _ => Err(ShuffleError::ContractViolation),
                }
            },
            SpillEvent::L3Done { path } => {
                match self.waiting {
                    Waiting::L3 { index } => {
                        let to = self.spills[index].spill.to_l3(path);
                        let size: usize = self.promote(index, to);
                        self.freed = self.freed + size as i128;
                        self.metrics.spill_count = self.metrics.spill_count.saturating_add(1);
                        self.metrics.spilled_bytes = self.metrics.spilled_bytes.saturating_add(
                            size,
                        );
                        Ok(self.settle())
                    },
                    _ => Err(ShuffleError::ContractViolation),
                }
            },
            SpillEvent::Failed => {
                if self.phase != Phase::Spilling {
                    return Err(ShuffleError::ContractViolation);
                }
                self.fail();
                Err(ShuffleError::Io)
            },
        }
    }

    /// Plans the merge of the spills, or gives up where the data file would
    /// be too long.
    fn settle_write(&mut self) -> (r: Result<WriteAction, ShuffleError>)
        requires
            0 < old(self).num_output_partitions < usize::MAX,
            forall|s: int|
                0 <= s < old(self).spills@.len() ==> (#[trigger] old(self).spills@[s]).wf(
                    old(self).num_output_partitions,
                ),
            old(self).buffered_batches@.len() == 0,
            old(self).buffered_rows == 0,
            old(self).buffered_mem_size == 0,
            old(self).plan@.len() == 0,
            old(self).spills@.len() == 0 ==> old(self).metrics.mem_used == 0,
            -(usize::MAX as int) <= old(self).freed <= 2 * (usize::MAX as int),
            old(self).rows_inserted@ == total(old(self).rows_frozen@),
            old(self).rows_frozen@.len() == old(self).spills@.len(),
        ensures
            final(self).wf(),
            write_settles(old(self)@, r, final(self)@),
    {
        match plan_merge(&self.spills, self.num_output_partitions) {
            Some(plan) => {
                self.phase = Phase::Finalizing;
                self.waiting = Waiting::Written;
                Ok(WriteAction::Write(plan))
            },
            None => {
                self.phase = Phase::Closed;
                self.waiting = Waiting::Nothing;
                Err(ShuffleError::Io)
            },
        }
    }

    /// One step of the terminal write, the operation that ends the input. It
    /// begins with the event `Start`, and each result tells the driver what to
    /// do before it reports the next event: what is still buffered is frozen
    /// into a last spill, the spills are merged partition by partition into
    /// the data file, the index file is written, and the memory account is
    /// set to zero.
    pub fn shuffle_write(&mut self, event: WriteEvent) -> (r: Result<WriteAction, ShuffleError>)
        requires
            old(self).wf(),
        ensures
            final(self).wf(),
            write_step(old(self)@, event, r, final(self)@),
    {
        match event {
            WriteEvent::Start => {
                if self.phase != Phase::Open {
                    return Err(ShuffleError::ContractViolation);
                }
                if self.buffered_batches.len() > 0 {
                    self.plan_freeze();
                    self.current_used = 0;
                    self.freed = 0;
                    self.phase = Phase::Finalizing;
                    self.waiting = Waiting::Blocks;
                    Ok(WriteAction::Encode)
                } else {
                    self.settle_write()
                }
            },
            WriteEvent::Encoded(blocks) => {
                if self.phase != Phase::Finalizing || self.waiting != Waiting::Blocks {
                    return Err(ShuffleError::ContractViolation);
                }
                if blocks.len() != self.plan.len() {
                    self.fail();
                    return Err(ShuffleError::Data);
                }
                let ghost rows = all_hashes(self.buffered_batches@).len();
                let in_mem_spill = self.spill_buffered_to_l1(&blocks);
                self.spills.push(in_mem_spill);
                proof {
                    assert(self.rows_frozen@.push(rows).drop_last() =~= self.rows_frozen@);
                }
                self.rows_frozen = Ghost(self.rows_frozen@.push(rows));
                self.settle_write()
            },
            WriteEvent::Written => {
                if self.waiting != Waiting::Written {
                    return Err(ShuffleError::ContractViolation);
                }
                let released: usize = self.metrics.mem_used;
                self.metrics.mem_used = 0;
                self.spills = Vec::new();
                self.phase = Phase::Closed;
                self.waiting = Waiting::Nothing;
                Ok(WriteAction::Done { released })
            },
            WriteEvent::Failed => {
                if self.phase != Phase::Finalizing {
                    return Err(ShuffleError::ContractViolation);
                }
                self.fail();
                Err(ShuffleError::Io)
            },
        }
    }
}

} // verus!
