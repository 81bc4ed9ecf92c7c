use sort_shuffle::freeze::freeze_plan;
use sort_shuffle::sort_key::{sort_rows, PI};
use sort_shuffle::spill::{assemble_spill, ShuffleSpill, Spill};
use sort_shuffle::sub_batch::{plan_sub_batches, SubBatch};

fn shape(plan: &[SubBatch]) -> Vec<(u32, Vec<u32>)> {
    plan.iter().map(|sub| (sub.partition_id, sub.indices.clone())).collect()
}

fn l1_bytes(spill: &ShuffleSpill) -> Vec<u8> {
    match &spill.spill {
        Spill::L1(data) => data.clone(),
        _ => panic!("a frozen spill is a heap spill"),
    }
}

#[test]
fn single_batch_four_partitions_eight_rows() {
    let hashes = vec![2, 0, 2, 1, 3, 0, 2, 1];
    let plan = freeze_plan(&hashes, 4, 1024);
    assert_eq!(
        shape(&plan),
        vec![(0, vec![1, 5]), (1, vec![3, 7]), (2, vec![0, 2, 6]), (3, vec![4])]
    );
    let blocks: Vec<Vec<u8>> =
        plan.iter().map(|sub| sub.indices.iter().map(|i| *i as u8).collect()).collect();
    let spill = assemble_spill(&plan, &blocks, 4);
    assert_eq!(spill.offsets, vec![0, 2, 4, 7, 8]);
    assert_eq!(l1_bytes(&spill), vec![1, 5, 3, 7, 0, 2, 6, 4]);
}

#[test]
fn rows_within_a_partition_are_ordered_by_hash() {
    let hashes = vec![12, 4, 8, 0, 5, 1];
    let plan = freeze_plan(&hashes, 4, 1024);
    assert_eq!(shape(&plan), vec![(0, vec![3, 1, 2, 0]), (1, vec![5, 4])]);
}

#[test]
fn empty_partitions_share_an_offset() {
    let hashes = vec![3, 11, 19, 3];
    let plan = freeze_plan(&hashes, 8, 1024);
    assert_eq!(shape(&plan), vec![(3, vec![0, 3, 1, 2])]);
    let blocks = vec![vec![7u8; 10]];
    let spill = assemble_spill(&plan, &blocks, 8);
    assert_eq!(spill.offsets, vec![0, 0, 0, 0, 10, 10, 10, 10, 10]);
}

#[test]
fn skewed_batch_is_cut_by_batch_size() {
    let rows = 1_000_000;
    let hashes = vec![0u32; rows];
    let plan = freeze_plan(&hashes, 5, 4096);
    assert_eq!(plan.len(), 245);
    for sub in &plan[..244] {
        assert_eq!(sub.partition_id, 0);
        assert_eq!(sub.indices.len(), 4096);
    }
    assert_eq!(plan[244].indices.len(), rows - 244 * 4096);
    let written: Vec<u32> = plan.iter().flat_map(|sub| sub.indices.iter().copied()).collect();
    assert_eq!(written, (0..rows as u32).collect::<Vec<u32>>());
    let blocks: Vec<Vec<u8>> = plan.iter().map(|sub| vec![1u8; sub.indices.len() / 512]).collect();
    let total: u64 = blocks.iter().map(|b| b.len() as u64).sum();
    let spill = assemble_spill(&plan, &blocks, 5);
    assert_eq!(spill.offsets, vec![0, total, total, total, total, total]);
    assert_eq!(spill.spill.len() as u64, total);
}

#[test]
fn batch_size_cuts_within_a_partition_only() {
    let hashes = vec![0, 0, 0, 0, 0, 1, 1, 2];
    let plan = freeze_plan(&hashes, 3, 2);
    assert_eq!(
        shape(&plan),
        vec![
            (0, vec![0, 1]),
            (0, vec![2, 3]),
            (0, vec![4]),
            (1, vec![5, 6]),
            (2, vec![7])
        ]
    );
}

#[test]
fn batch_size_zero_writes_single_rows() {
    let hashes = vec![1, 0, 1];
    let plan = freeze_plan(&hashes, 2, 0);
    assert_eq!(shape(&plan), vec![(0, vec![1]), (1, vec![0]), (1, vec![2])]);
}

#[test]
fn batch_size_one_writes_single_rows() {
    let hashes = vec![1, 0, 1];
    let plan = freeze_plan(&hashes, 2, 1);
    assert_eq!(shape(&plan), vec![(0, vec![1]), (1, vec![0]), (1, vec![2])]);
}

#[test]
fn freeze_plan_of_no_rows_is_empty() {
    let plan = freeze_plan(&vec![], 4, 16);
    assert!(plan.is_empty());
    let spill = assemble_spill(&plan, &vec![], 4);
    assert_eq!(spill.offsets, vec![0, 0, 0, 0, 0]);
    assert_eq!(l1_bytes(&spill), Vec::<u8>::new());
}

#[test]
fn freeze_plan_writes_every_row_once() {
    let mut seed: u64 = 99;
    let hashes: Vec<u32> = (0..5000)
        .map(|_| {
            seed = seed.wrapping_mul(6364136223846793005).wrapping_add(1442695040888963407);
            (seed >> 40) as u32
        })
        .collect();
    let plan = freeze_plan(&hashes, 13, 64);
    let mut seen = vec![false; hashes.len()];
    let mut last_partition = 0;
    for sub in &plan {
        assert!(!sub.indices.is_empty() && sub.indices.len() <= 64);
        assert!(sub.partition_id >= last_partition);
        last_partition = sub.partition_id;
        for row in &sub.indices {
            assert!(!seen[*row as usize]);
            seen[*row as usize] = true;
            assert_eq!(hashes[*row as usize] % 13, sub.partition_id);
        }
    }
    assert!(seen.iter().all(|s| *s));
}

#[test]
fn sub_batches_of_sorted_tuples() {
    let tuples = sort_rows(&vec![5, 2, 8, 2], 3);
    let order: Vec<(u32, u32, u32)> =
        tuples.iter().map(|pi: &PI| (pi.partition_id, pi.hash, pi.index)).collect();
    assert_eq!(order, vec![(2, 2, 1), (2, 2, 3), (2, 5, 0), (2, 8, 2)]);
    let plan = plan_sub_batches(&tuples, 3);
    assert_eq!(shape(&plan), vec![(2, vec![1, 3, 0]), (2, vec![2])]);
}

#[test]
fn offsets_count_the_bytes_of_lower_partitions() {
    let plan = vec![
        SubBatch { partition_id: 1, indices: vec![0] },
        SubBatch { partition_id: 1, indices: vec![1] },
        SubBatch { partition_id: 4, indices: vec![2] },
    ];
    let blocks = vec![vec![1u8, 2, 3], vec![4u8], vec![5u8, 6]];
    let spill = assemble_spill(&plan, &blocks, 6);
    assert_eq!(spill.offsets, vec![0, 0, 4, 4, 4, 6, 6]);
    assert_eq!(l1_bytes(&spill), vec![1, 2, 3, 4, 5, 6]);
    assert_eq!(spill.spill.offheap_mem_size(), 6);
    assert_eq!(spill.spill.tier(), 1);
}

#[test]
fn tiers_report_their_memory() {
    let l1 = Spill::new_l1(vec![0u8; 12]);
    assert_eq!((l1.tier(), l1.offheap_mem_size(), l1.len()), (1, 12, 12));
    let l2 = l1.to_l2(41);
    assert_eq!((l2.tier(), l2.offheap_mem_size(), l2.len()), (2, 12, 12));
    assert!(matches!(l2, Spill::L2 { spill_id: 41, size: 12 }));
    let l3 = l2.to_l3(String::from("/tmp/spill-0"));
    assert_eq!((l3.tier(), l3.offheap_mem_size(), l3.len()), (3, 0, 12));
    let direct = l1.to_l3(String::from("/tmp/spill-1"));
    assert_eq!((direct.tier(), direct.offheap_mem_size(), direct.len()), (3, 0, 12));
}

#[test]
fn offset_table_is_checked_against_the_spill() {
    let spill = |offsets: Vec<u64>, len: usize| ShuffleSpill {
        spill: Spill::new_l1(vec![0u8; len]),
        offsets,
    };
    assert!(spill(vec![0, 2, 2, 5], 5).check(3));
    assert!(spill(vec![0], 0).check(0));
    assert!(spill(vec![0, 0, 0], 0).check(2));
    assert!(!spill(vec![0, 2, 2, 5], 5).check(2));
    assert!(!spill(vec![0, 2, 2, 5], 5).check(4));
    assert!(!spill(vec![0, 2, 2, 5], 6).check(3));
    assert!(!spill(vec![1, 2, 2, 5], 5).check(3));
    assert!(!spill(vec![0, 3, 2, 5], 5).check(3));
    assert!(!spill(vec![0, 2, 6, 5], 5).check(3));
    assert!(!spill(vec![], 0).check(0));
    assert!(!spill(vec![0], 0).check(usize::MAX));
    let file = ShuffleSpill {
        spill: Spill::L3 { path: String::from("/tmp/f"), size: 9 },
        offsets: vec![0, 4, 9],
    };
    assert!(file.check(2));
    let frozen = assemble_spill(
        &vec![SubBatch { partition_id: 0, indices: vec![0] }],
        &vec![vec![1u8, 2]],
        3,
    );
    assert!(frozen.check(3));
}
