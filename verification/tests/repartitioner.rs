use sort_shuffle::index_file::encode_index;
use sort_shuffle::merge::MergePlan;
use sort_shuffle::protocol::{
    Batch, Phase, ShuffleError, SpillAction, SpillEvent, WriteAction, WriteEvent,
};
use sort_shuffle::repartitioner::SortShuffleRepartitioner;
use sort_shuffle::spill::{largest_spill, ShuffleSpill, Spill};

/// A driver that keeps the rows, the managed buffers and the files in memory.
/// A row is known by a number; a block holds the count of its rows and then
/// their numbers.
struct Driver {
    core: SortShuffleRepartitioner,
    partitions: usize,
    buffered: Vec<u64>,
    hashes: Vec<u32>,
    buffers: Vec<Vec<u8>>,
    buffers_left: usize,
    files: Vec<(String, Vec<u8>)>,
}

fn driver(partitions: usize, batch_size: usize, buffers_left: usize) -> Driver {
    Driver {
        core: SortShuffleRepartitioner::new(
            7,
            String::from("/out/data"),
            String::from("/out/index"),
            partitions,
            batch_size,
        ),
        partitions,
        buffered: vec![],
        hashes: vec![],
        buffers: vec![],
        buffers_left,
        files: vec![],
    }
}

impl Driver {
    fn insert(&mut self, hashes: &[u32], mem_size: usize) -> Result<(), ShuffleError> {
        let batch = Batch { hashes: hashes.to_vec(), mem_size };
        let granted = SortShuffleRepartitioner::mem_increase(&batch).is_some();
        self.core.insert_batch(batch, granted)?;
        for hash in hashes {
            self.buffered.push(self.hashes.len() as u64);
            self.hashes.push(*hash);
        }
        Ok(())
    }

    fn encode(&mut self) -> Vec<Vec<u8>> {
        let mut blocks = vec![];
        for sub in self.core.pending_sub_batches() {
            let mut block = (sub.indices.len() as u32).to_le_bytes().to_vec();
            for index in &sub.indices {
                block.extend_from_slice(&self.buffered[*index as usize].to_le_bytes());
            }
            blocks.push(block);
        }
        self.buffered.clear();
        blocks
    }

    fn read(&self, spill: &Spill) -> Vec<u8> {
        match spill {
            Spill::L1(data) => data.clone(),
            Spill::L2 { spill_id, size } => {
                assert_eq!(self.buffers[*spill_id as usize].len(), *size);
                self.buffers[*spill_id as usize].clone()
            }
            Spill::L3 { path, size } => {
                let file = self.files.iter().find(|(p, _)| p == path).unwrap();
                assert_eq!(file.1.len(), *size);
                file.1.clone()
            }
        }
    }

    fn spill(&mut self) -> Result<usize, ShuffleError> {
        let mut action = self.core.spill(SpillEvent::Start)?;
        loop {
            let event = match action {
                SpillAction::Encode => SpillEvent::Encoded(self.encode()),
                SpillAction::PromoteToL2 { index } => {
                    if self.buffers_left > 0 {
                        self.buffers_left -= 1;
                        let bytes = self.read(&self.core.spills()[index].spill);
                        self.buffers.push(bytes);
                        SpillEvent::L2Done { spill_id: self.buffers.len() as i32 - 1 }
                    } else {
                        SpillEvent::L2Exhausted
                    }
                }
                SpillAction::WriteToL3 { index } => {
                    let bytes = self.read(&self.core.spills()[index].spill);
                    let path = format!("/tmp/spill-{}", self.files.len());
                    self.files.push((path.clone(), bytes));
                    SpillEvent::L3Done { path }
                }
                SpillAction::Done { freed } => return Ok(freed),
            };
            action = self.core.spill(event)?;
        }
    }

    fn perform(&self, plan: &MergePlan) -> (Vec<u8>, Vec<u8>) {
        let data: Vec<Vec<u8>> = self.core.spills().iter().map(|s| self.read(&s.spill)).collect();
        let mut out = vec![];
        for step in &plan.steps {
            let from = step.start as usize;
            out.extend_from_slice(&data[step.spill][from..from + step.len as usize]);
        }
        (out, encode_index(&plan.index))
    }

    fn finish(&mut self) -> Result<(Vec<u8>, Vec<u8>, usize), ShuffleError> {
        let mut action = self.core.shuffle_write(WriteEvent::Start)?;
        let mut written = (vec![], vec![]);
        loop {
            let event = match action {
                WriteAction::Encode => WriteEvent::Encoded(self.encode()),
                WriteAction::Write(plan) => {
                    written = self.perform(&plan);
                    WriteEvent::Written
                }
                WriteAction::Done { released } => return Ok((written.0, written.1, released)),
            };
            action = self.core.shuffle_write(event)?;
        }
    }

    /// The rows of each partition of the output, in the order in which
    /// they stand in the data file.
    fn decode(&self, data: &[u8], index: &[u8]) -> Vec<Vec<u64>> {
        assert_eq!(index.len(), 8 * (self.partitions + 1));
        let offsets: Vec<usize> = index
            .chunks(8)
            .map(|c| i64::from_le_bytes([c[0], c[1], c[2], c[3], c[4], c[5], c[6], c[7]]) as usize)
            .collect();
        assert_eq!(offsets[0], 0);
        assert_eq!(offsets[self.partitions], data.len());
        let mut partitions = vec![];
        for p in 0..self.partitions {
            assert!(offsets[p] <= offsets[p + 1]);
            let mut rows = vec![];
            let mut at = offsets[p];
            while at < offsets[p + 1] {
                let count =
                    u32::from_le_bytes([data[at], data[at + 1], data[at + 2], data[at + 3]]);
                at += 4;
                for _ in 0..count {
                    let mut id = [0u8; 8];
                    id.copy_from_slice(&data[at..at + 8]);
                    rows.push(u64::from_le_bytes(id));
                    at += 8;
                }
            }
            assert_eq!(at, offsets[p + 1]);
            for row in &rows {
                assert_eq!(self.hashes[*row as usize] as usize % self.partitions, p);
            }
            partitions.push(rows);
        }
        partitions
    }
}

fn sorted(mut rows: Vec<u64>) -> Vec<u64> {
    rows.sort();
    rows
}

fn hashes_of(count: u32, seed: u32) -> Vec<u32> {
    (0..count).map(|i| (i.wrapping_mul(2654435761) ^ seed).rotate_left(7)).collect()
}

#[test]
fn single_batch_is_grouped_by_partition() {
    let mut d = driver(4, 1024, 0);
    d.insert(&[2, 0, 2, 1, 3, 0, 2, 1], 64).unwrap();
    let (data, index, _) = d.finish().unwrap();
    let partitions = d.decode(&data, &index);
    assert_eq!(sorted(partitions[0].clone()), vec![1, 5]);
    assert_eq!(sorted(partitions[1].clone()), vec![3, 7]);
    assert_eq!(sorted(partitions[2].clone()), vec![0, 2, 6]);
    assert_eq!(sorted(partitions[3].clone()), vec![4]);
    let offsets: Vec<u64> = vec![0, 20, 40, 68, 80];
    assert_eq!(index, encode_index(&offsets));
    assert_eq!(data.len(), 80);
}

#[test]
fn two_batches_with_a_spill_between() {
    let a = hashes_of(100, 1);
    let b = hashes_of(100, 2);
    let mut d = driver(5, 16, 100);
    d.insert(&a, 1000).unwrap();
    d.spill().unwrap();
    d.insert(&b, 1000).unwrap();
    let (data, index, _) = d.finish().unwrap();
    let partitions = d.decode(&data, &index);
    let all: Vec<u64> = partitions.iter().flatten().copied().collect();
    assert_eq!(sorted(all), (0..200).collect::<Vec<u64>>());
    for rows in &partitions {
        let from_a: Vec<u64> = rows.iter().copied().filter(|r| *r < 100).collect();
        let from_b: Vec<u64> = rows.iter().copied().filter(|r| *r >= 100).collect();
        assert!(!from_a.is_empty() && !from_b.is_empty());
        let mut joined = from_a.clone();
        joined.extend_from_slice(&from_b);
        assert_eq!(*rows, joined);
    }
}

#[test]
fn no_input_gives_an_empty_data_file_and_an_index_of_zeros() {
    let mut d = driver(6, 1024, 0);
    let (data, index, released) = d.finish().unwrap();
    assert!(data.is_empty());
    assert_eq!(index, vec![0u8; 8 * 7]);
    assert_eq!(released, 0);
    assert_eq!(d.core.mem_used(), 0);
    assert_eq!(d.core.phase(), Phase::Closed);
}

#[test]
fn rows_of_one_partition_leave_the_others_empty() {
    let mut d = driver(8, 1024, 0);
    d.insert(&[3, 11, 3, 19, 27], 10).unwrap();
    let (data, index, _) = d.finish().unwrap();
    let size = data.len() as u64;
    assert_eq!(size, 4 + 5 * 8);
    assert_eq!(index, encode_index(&vec![0, 0, 0, 0, size, size, size, size, size]));
    let partitions = d.decode(&data, &index);
    assert_eq!(sorted(partitions[3].clone()), vec![0, 1, 2, 3, 4]);
}

#[test]
fn exhausted_buffers_fall_back_to_files() {
    let run = |buffers_left: usize| {
        let mut d = driver(3, 8, buffers_left);
        d.insert(&hashes_of(50, 3), 10).unwrap();
        let freed = d.spill().unwrap();
        d.insert(&hashes_of(70, 4), 10).unwrap();
        let tiers: Vec<u8> = d.core.spills().iter().map(|s| s.spill.tier()).collect();
        let spilled = (d.core.spill_count(), d.core.spilled_bytes(), d.files.len());
        let (data, index, _) = d.finish().unwrap();
        (freed, tiers, spilled, data, index)
    };
    let with_files = run(0);
    let with_buffers = run(10);
    let mut counts = [0usize; 3];
    for hash in hashes_of(50, 3) {
        counts[hash as usize % 3] += 1;
    }
    let blocks: usize = counts.iter().map(|c| (c + 7) / 8).sum();
    let size = 50 * 8 + 4 * blocks;
    assert_eq!(with_files.0, 20);
    assert_eq!(with_files.1, vec![3]);
    assert_eq!(with_files.2, (1, size, 1));
    assert_eq!(with_buffers.0, 20);
    assert_eq!(with_buffers.1, vec![2]);
    assert_eq!(with_buffers.2, (0, 0, 0));
    assert_eq!(with_files.3, with_buffers.3);
    assert_eq!(with_files.4, with_buffers.4);
}

#[test]
fn a_spill_that_frees_half_promotes_nothing() {
    let mut d = driver(2, 1024, 10);
    d.insert(&[0, 1, 2], 100).unwrap();
    assert_eq!(d.core.mem_used(), 200);
    let freed = d.spill().unwrap();
    let size = 2 * 4 + 3 * 8;
    assert_eq!(freed, 200 - size);
    assert_eq!(d.core.mem_used(), size);
    assert_eq!(d.core.spills().len(), 1);
    assert_eq!(d.core.spills()[0].spill.tier(), 1);
    assert_eq!(d.core.phase(), Phase::Open);
}

#[test]
fn a_spill_promotes_the_largest_until_half_is_freed() {
    let mut d = driver(2, 1024, 10);
    d.insert(&hashes_of(10, 5), 20).unwrap();
    assert_eq!(d.spill().unwrap(), 40);
    assert_eq!(d.core.mem_used(), 0);
    assert_eq!(d.core.spills()[0].spill.tier(), 2);
    d.insert(&hashes_of(1, 5), 6).unwrap();
    assert_eq!(d.core.mem_used(), 12);
    let freed = d.spill().unwrap();
    assert_eq!(freed, 88);
    assert_eq!(d.core.mem_used(), 0);
    let tiers: Vec<u8> = d.core.spills().iter().map(|s| s.spill.tier()).collect();
    assert_eq!(tiers, vec![1, 2]);
    assert_eq!(d.core.spills()[0].spill.len(), 12);
    assert_eq!(d.core.spills()[1].spill.len(), 88);
}

#[test]
fn a_spill_of_nothing_changes_nothing() {
    let mut d = driver(3, 1024, 10);
    assert_eq!(d.core.spill(SpillEvent::Start), Ok(SpillAction::Done { freed: 0 }));
    assert!(d.core.spills().is_empty());
    assert_eq!(d.core.mem_used(), 0);
    assert_eq!(d.core.phase(), Phase::Open);
}

#[test]
fn a_spill_with_an_empty_buffer_promotes_what_is_held() {
    let mut d = driver(3, 1024, 10);
    d.insert(&hashes_of(4, 9), 100).unwrap();
    assert_eq!(d.spill().unwrap(), 200 - 44);
    assert_eq!(d.core.mem_used(), 44);
    assert_eq!(d.core.spill(SpillEvent::Start), Ok(SpillAction::PromoteToL2 { index: 0 }));
    assert_eq!(d.core.spill(SpillEvent::L2Exhausted), Ok(SpillAction::WriteToL3 { index: 0 }));
    assert_eq!(
        d.core.spill(SpillEvent::L3Done { path: String::from("/tmp/a") }),
        Ok(SpillAction::Done { freed: 44 })
    );
    assert_eq!(d.core.mem_used(), 0);
    assert_eq!((d.core.spill_count(), d.core.spilled_bytes()), (1, 44));
    assert_eq!(d.core.spills().len(), 1);
    assert!(matches!(&d.core.spills()[0].spill, Spill::L3 { path, size: 44 } if path == "/tmp/a"));
    assert_eq!(d.core.spill(SpillEvent::Start), Ok(SpillAction::Done { freed: 0 }));
}

#[test]
fn spills_around_the_input_do_not_change_the_output() {
    let rows = hashes_of(500, 6);
    let mut plain = driver(7, 32, 10);
    plain.insert(&rows[..200], 10).unwrap();
    plain.insert(&rows[200..], 10).unwrap();
    let expected = plain.finish().unwrap();

    let mut spilled = driver(7, 32, 1);
    spilled.spill().unwrap();
    spilled.spill().unwrap();
    spilled.insert(&rows[..200], 10).unwrap();
    spilled.insert(&rows[200..], 10).unwrap();
    spilled.spill().unwrap();
    spilled.spill().unwrap();
    let got = spilled.finish().unwrap();
    assert_eq!(got.0, expected.0);
    assert_eq!(got.1, expected.1);
    assert!(spilled.core.spill_count() + spilled.buffers.len() > 0);
}

#[test]
fn interleaved_inserts_and_spills_keep_every_row() {
    let mut d = driver(11, 10, 2);
    let mut count = 0;
    for round in 0..12u32 {
        let rows = hashes_of(10 + round * 7, round);
        count += rows.len() as u64;
        d.insert(&rows, 50 + round as usize).unwrap();
        if round % 3 != 1 {
            d.spill().unwrap();
        }
    }
    let used = d.core.mem_used();
    let (data, index, released) = d.finish().unwrap();
    assert_eq!(released, used);
    let partitions = d.decode(&data, &index);
    let all: Vec<u64> = partitions.iter().flatten().copied().collect();
    assert_eq!(sorted(all), (0..count).collect::<Vec<u64>>());
    assert!(d.core.spills().is_empty());
}

#[test]
fn memory_is_accounted_twice_and_released_at_the_end() {
    let mut d = driver(2, 4, 0);
    d.insert(&[1, 2, 3], 21).unwrap();
    d.insert(&[4], 4).unwrap();
    assert_eq!(d.core.mem_used(), 50);
    let (_, _, released) = d.finish().unwrap();
    assert_eq!(released, 50);
    assert_eq!(d.core.mem_used(), 0);
    assert_eq!(d.core.phase(), Phase::Closed);
}

#[test]
fn mem_increase_is_twice_the_batch() {
    let batch = Batch { hashes: vec![1], mem_size: 21 };
    assert_eq!(SortShuffleRepartitioner::mem_increase(&batch), Some(42));
    let none = Batch { hashes: vec![], mem_size: 0 };
    assert_eq!(SortShuffleRepartitioner::mem_increase(&none), Some(0));
    let huge = Batch { hashes: vec![], mem_size: usize::MAX / 2 + 1 };
    assert_eq!(SortShuffleRepartitioner::mem_increase(&huge), None);
}

#[test]
fn insert_without_memory_is_refused() {
    let mut d = driver(2, 4, 0);
    let r = d.core.insert_batch(Batch { hashes: vec![1], mem_size: 8 }, false);
    assert_eq!(r, Err(ShuffleError::MemoryExhausted));
    assert_eq!(d.core.mem_used(), 0);
    d.insert(&[1], usize::MAX / 2).unwrap();
    let r = d.core.insert_batch(Batch { hashes: vec![1], mem_size: 1 }, true);
    assert_eq!(r, Err(ShuffleError::MemoryExhausted));
    assert_eq!(d.core.mem_used(), usize::MAX - 1);
    let r = d.core.insert_batch(Batch { hashes: vec![1], mem_size: usize::MAX }, true);
    assert_eq!(r, Err(ShuffleError::MemoryExhausted));
}

#[test]
fn insert_after_the_end_is_a_contract_violation() {
    let mut d = driver(2, 4, 0);
    d.insert(&[1], 8).unwrap();
    d.finish().unwrap();
    let r = d.core.insert_batch(Batch { hashes: vec![1], mem_size: 8 }, true);
    assert_eq!(r, Err(ShuffleError::ContractViolation));
    assert!(matches!(d.core.shuffle_write(WriteEvent::Start), Err(ShuffleError::ContractViolation)));
    assert_eq!(d.core.spill(SpillEvent::Start), Err(ShuffleError::ContractViolation));
}

#[test]
fn events_out_of_turn_are_contract_violations() {
    let mut d = driver(2, 4, 0);
    assert_eq!(d.core.spill(SpillEvent::L2Exhausted), Err(ShuffleError::ContractViolation));
    assert_eq!(
        d.core.spill(SpillEvent::L2Done { spill_id: 1 }),
        Err(ShuffleError::ContractViolation)
    );
    assert_eq!(
        d.core.spill(SpillEvent::L3Done { path: String::from("x") }),
        Err(ShuffleError::ContractViolation)
    );
    assert_eq!(d.core.spill(SpillEvent::Encoded(vec![])), Err(ShuffleError::ContractViolation));
    assert_eq!(d.core.spill(SpillEvent::Failed), Err(ShuffleError::ContractViolation));
    assert!(matches!(
        d.core.shuffle_write(WriteEvent::Written),
        Err(ShuffleError::ContractViolation)
    ));
    assert!(matches!(
        d.core.shuffle_write(WriteEvent::Encoded(vec![])),
        Err(ShuffleError::ContractViolation)
    ));
    assert!(matches!(
        d.core.shuffle_write(WriteEvent::Failed),
        Err(ShuffleError::ContractViolation)
    ));
    assert_eq!(d.core.phase(), Phase::Open);
    d.insert(&[1, 2], 8).unwrap();
    assert_eq!(d.core.spill(SpillEvent::Start), Ok(SpillAction::Encode));
    assert_eq!(d.core.phase(), Phase::Spilling);
    let r = d.core.insert_batch(Batch { hashes: vec![1], mem_size: 8 }, true);
    assert_eq!(r, Err(ShuffleError::ContractViolation));
    assert_eq!(d.core.spill(SpillEvent::Start), Err(ShuffleError::ContractViolation));
    assert!(matches!(
        d.core.shuffle_write(WriteEvent::Encoded(vec![])),
        Err(ShuffleError::ContractViolation)
    ));
}

#[test]
fn blocks_that_do_not_match_the_plan_are_a_data_error() {
    let mut d = driver(2, 4, 0);
    d.insert(&[0, 1], 8).unwrap();
    assert_eq!(d.core.spill(SpillEvent::Start), Ok(SpillAction::Encode));
    assert_eq!(d.core.pending_sub_batches().len(), 2);
    assert_eq!(d.core.spill(SpillEvent::Encoded(vec![vec![1]])), Err(ShuffleError::Data));
    assert_eq!(d.core.phase(), Phase::Closed);
    assert!(d.core.pending_sub_batches().is_empty());

    let mut w = driver(2, 4, 0);
    w.insert(&[0, 1], 8).unwrap();
    assert!(matches!(w.core.shuffle_write(WriteEvent::Start), Ok(WriteAction::Encode)));
    assert_eq!(w.core.phase(), Phase::Finalizing);
    assert!(matches!(
        w.core.shuffle_write(WriteEvent::Encoded(vec![vec![1], vec![2], vec![3]])),
        Err(ShuffleError::Data)
    ));
    assert_eq!(w.core.phase(), Phase::Closed);
}

#[test]
fn a_failure_of_the_driver_is_an_io_error() {
    let mut d = driver(2, 4, 0);
    d.insert(&hashes_of(20, 1), 8).unwrap();
    assert_eq!(d.core.spill(SpillEvent::Start), Ok(SpillAction::Encode));
    let blocks = d.encode();
    let action = d.core.spill(SpillEvent::Encoded(blocks)).unwrap();
    assert_eq!(action, SpillAction::PromoteToL2 { index: 0 });
    assert_eq!(d.core.spill(SpillEvent::L2Exhausted), Ok(SpillAction::WriteToL3 { index: 0 }));
    assert_eq!(d.core.spill(SpillEvent::Failed), Err(ShuffleError::Io));
    assert_eq!(d.core.phase(), Phase::Closed);
    assert_eq!(d.core.mem_used(), 16);

    let mut w = driver(2, 4, 0);
    assert!(matches!(w.core.shuffle_write(WriteEvent::Start), Ok(WriteAction::Write(_))));
    assert!(matches!(w.core.shuffle_write(WriteEvent::Failed), Err(ShuffleError::Io)));
    assert_eq!(w.core.phase(), Phase::Closed);
}

#[test]
fn the_largest_spill_is_the_last_of_the_largest() {
    let spill = |size: usize| ShuffleSpill {
        spill: Spill::new_l1(vec![0; size]),
        offsets: vec![0, size as u64],
    };
    assert_eq!(largest_spill(&vec![spill(3)]), 0);
    assert_eq!(largest_spill(&vec![spill(3), spill(9), spill(4)]), 1);
    assert_eq!(largest_spill(&vec![spill(9), spill(3), spill(9), spill(4)]), 2);
    assert_eq!(largest_spill(&vec![spill(0), spill(0), spill(0)]), 2);
    let file = ShuffleSpill {
        spill: Spill::L3 { path: String::from("/tmp/f"), size: 100 },
        offsets: vec![0, 100],
    };
    let buffer =
        ShuffleSpill { spill: Spill::L2 { spill_id: 1, size: 50 }, offsets: vec![0, 50] };
    assert_eq!(largest_spill(&vec![file, spill(10), buffer, spill(20)]), 2);
}

#[test]
fn a_promoted_spill_moves_to_the_end_of_the_list() {
    let mut d = driver(1, 1024, 10);
    d.insert(&hashes_of(3, 1), 1).unwrap();
    assert_eq!(d.spill().unwrap(), 2);
    d.insert(&hashes_of(1, 1), 1).unwrap();
    assert_eq!(d.core.mem_used(), 2);
    let lens: Vec<usize> = d.core.spills().iter().map(|s| s.spill.len()).collect();
    assert_eq!(lens, vec![28]);
    assert_eq!(d.core.spill(SpillEvent::Start), Ok(SpillAction::Encode));
    let blocks = d.encode();
    let action = d.core.spill(SpillEvent::Encoded(blocks)).unwrap();
    assert_eq!(action, SpillAction::PromoteToL2 { index: 0 });
    let action = d.core.spill(SpillEvent::L2Done { spill_id: 0 }).unwrap();
    assert_eq!(action, SpillAction::Done { freed: 18 });
    let tiers: Vec<(u8, usize)> =
        d.core.spills().iter().map(|s| (s.spill.tier(), s.spill.len())).collect();
    assert_eq!(tiers, vec![(1, 12), (2, 28)]);
    assert_eq!(d.core.mem_used(), 0);
}

#[test]
fn the_operator_says_who_it_is() {
    let d = driver(9, 1024, 0);
    assert_eq!(d.core.name(), "sort repartitioner");
    assert_eq!(d.core.consumer_name(), "SortShuffleRepartitioner");
    assert_eq!(d.core.id(), 7);
    assert_eq!(d.core.output_data_file(), "/out/data");
    assert_eq!(d.core.output_index_file(), "/out/index");
    assert_eq!(d.core.num_output_partitions(), 9);
    assert_eq!((d.core.mem_used(), d.core.spilled_bytes(), d.core.spill_count()), (0, 0, 0));
    assert_eq!(d.core.phase(), Phase::Open);
}
