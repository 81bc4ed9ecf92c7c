use sort_shuffle::cursor::SpillCursor;
use sort_shuffle::index_file::encode_index;
use sort_shuffle::loser_tree::{LoserTree, Ranked};
use sort_shuffle::merge::{plan_merge, MergeStep};
use sort_shuffle::spill::{ShuffleSpill, Spill};

fn spill_with(partitions: &[&[u8]]) -> ShuffleSpill {
    let mut data = vec![];
    let mut offsets = vec![0u64];
    for bytes in partitions {
        data.extend_from_slice(bytes);
        offsets.push(data.len() as u64);
    }
    ShuffleSpill { spill: Spill::new_l1(data), offsets }
}

fn bytes_of(spill: &ShuffleSpill) -> &Vec<u8> {
    match &spill.spill {
        Spill::L1(data) => data,
        _ => panic!("the spills of these tests are heap spills"),
    }
}

fn perform(spills: &[ShuffleSpill], steps: &[MergeStep]) -> Vec<u8> {
    let mut out = vec![];
    for step in steps {
        let data = bytes_of(&spills[step.spill]);
        out.extend_from_slice(&data[step.start as usize..(step.start + step.len) as usize]);
    }
    out
}

fn cursor(cur: usize, spill: usize, offsets: &[u64]) -> SpillCursor {
    SpillCursor { cur, spill, offsets: offsets.to_vec() }
}

#[test]
fn cursor_skips_empty_partitions() {
    let mut c = cursor(0, 0, &[0, 0, 0, 5, 5, 9]);
    assert!(!c.finished());
    c.skip_empty_partitions();
    assert_eq!(c.cur, 2);
    c.skip_empty_partitions();
    assert_eq!(c.cur, 2);
    c.cur += 1;
    c.skip_empty_partitions();
    assert_eq!(c.cur, 4);
    c.cur += 1;
    c.skip_empty_partitions();
    assert_eq!(c.cur, 5);
    assert!(c.finished());
}

#[test]
fn cursor_over_empty_spill_is_finished_after_skipping() {
    let mut c = cursor(0, 3, &[0, 0, 0, 0]);
    c.skip_empty_partitions();
    assert_eq!(c.cur, 3);
    assert!(c.finished());
    assert_eq!(c.spill, 3);
    let mut none = cursor(0, 0, &[]);
    none.skip_empty_partitions();
    assert!(none.finished());
    assert_eq!(none.cur, 0);
}

#[test]
fn finished_cursor_sorts_last() {
    let finished = cursor(2, 0, &[0, 1, 2]);
    let early = cursor(0, 1, &[0, 1, 2]);
    let late = cursor(1, 2, &[0, 1, 2]);
    assert!(finished.finished());
    assert!(!finished.less(&early));
    assert!(!finished.less(&finished));
    assert!(early.less(&finished));
    assert!(early.less(&late));
    assert!(!late.less(&early));
    assert!(!early.less(&early));
}

#[test]
fn loser_tree_yields_cursors_in_order() {
    let table = [0u64, 1, 2, 3, 4, 5, 6, 7, 8, 9];
    let starts = [5usize, 1, 7, 1, 3, 0, 8, 3];
    let cursors: Vec<SpillCursor> =
        starts.iter().enumerate().map(|(i, cur)| cursor(*cur, i, &table)).collect();
    let mut tree = LoserTree::new(cursors);
    assert_eq!(tree.len(), 8);
    let mut seen = vec![];
    loop {
        let top = tree.peek_mut();
        if top.finished() {
            break;
        }
        seen.push((top.cur, top.spill));
        top.cur = 9;
        tree.adjust();
    }
    assert_eq!(seen, vec![(0, 5), (1, 1), (1, 3), (3, 4), (3, 7), (5, 0), (7, 2), (8, 6)]);
}

#[test]
fn loser_tree_follows_changes_of_the_top() {
    let table = [0u64, 1, 2, 3, 4, 5, 6];
    let cursors = vec![cursor(0, 0, &table), cursor(0, 1, &table), cursor(2, 2, &table)];
    let mut tree = LoserTree::new(cursors);
    assert_eq!(tree.top_index(), 0);
    let mut seen = vec![];
    loop {
        let top = tree.peek_mut();
        if top.finished() {
            break;
        }
        seen.push((top.cur, top.spill));
        top.cur += 2;
        tree.adjust();
    }
    assert_eq!(
        seen,
        vec![(0, 0), (0, 1), (2, 0), (2, 1), (2, 2), (4, 0), (4, 1), (4, 2)]
    );
    assert!(tree.peek().finished());
}

#[test]
fn loser_tree_of_one_leaf() {
    let mut tree = LoserTree::new(vec![cursor(1, 0, &[0, 1, 2, 3])]);
    assert_eq!(tree.len(), 1);
    assert_eq!(tree.top_index(), 0);
    assert_eq!(tree.peek().cur, 1);
    tree.peek_mut().cur = 2;
    tree.adjust();
    assert_eq!(tree.peek().cur, 2);
}

#[test]
fn loser_tree_of_no_leaves() {
    let tree: LoserTree<SpillCursor> = LoserTree::new(vec![]);
    assert_eq!(tree.len(), 0);
}

#[test]
fn merge_groups_partitions_across_spills() {
    let spills = vec![
        spill_with(&[b"aa", b"", b"bbb", b"c"]),
        spill_with(&[b"", b"dd", b"e", b""]),
        spill_with(&[b"f", b"g", b"", b"hh"]),
    ];
    let plan = plan_merge(&spills, 4).unwrap();
    assert_eq!(
        plan.steps,
        vec![
            MergeStep { spill: 0, partition: 0, start: 0, len: 2 },
            MergeStep { spill: 2, partition: 0, start: 0, len: 1 },
            MergeStep { spill: 1, partition: 1, start: 0, len: 2 },
            MergeStep { spill: 2, partition: 1, start: 1, len: 1 },
            MergeStep { spill: 0, partition: 2, start: 2, len: 3 },
            MergeStep { spill: 1, partition: 2, start: 2, len: 1 },
            MergeStep { spill: 0, partition: 3, start: 5, len: 1 },
            MergeStep { spill: 2, partition: 3, start: 2, len: 2 },
        ]
    );
    assert_eq!(plan.index, vec![0, 3, 6, 10, 13]);
    assert_eq!(perform(&spills, &plan.steps), b"aafddgbbbechh".to_vec());
}

#[test]
fn merge_of_no_spills_writes_nothing() {
    let plan = plan_merge(&vec![], 6).unwrap();
    assert!(plan.steps.is_empty());
    assert_eq!(plan.index, vec![0; 7]);
    assert_eq!(encode_index(&plan.index), vec![0u8; 56]);
}

#[test]
fn merge_of_empty_spills_writes_nothing() {
    let spills = vec![spill_with(&[b"", b"", b""]), spill_with(&[b"", b"", b""])];
    let plan = plan_merge(&spills, 3).unwrap();
    assert!(plan.steps.is_empty());
    assert_eq!(plan.index, vec![0, 0, 0, 0]);
}

#[test]
fn merge_of_one_spill_copies_it() {
    let spills = vec![spill_with(&[b"", b"xy", b"", b"z", b""])];
    let plan = plan_merge(&spills, 5).unwrap();
    assert_eq!(plan.index, spills[0].offsets);
    assert_eq!(perform(&spills, &plan.steps), b"xyz".to_vec());
}

#[test]
fn empty_spills_do_not_change_the_merge() {
    let full = spill_with(&[b"ab", b"", b"cde"]);
    let alone = plan_merge(&vec![spill_with(&[b"ab", b"", b"cde"])], 3).unwrap();
    let spills = vec![spill_with(&[b"", b"", b""]), full, spill_with(&[b"", b"", b""])];
    let plan = plan_merge(&spills, 3).unwrap();
    assert_eq!(plan.index, alone.index);
    assert_eq!(perform(&spills, &plan.steps), b"abcde".to_vec());
    assert_eq!(
        plan.steps,
        vec![
            MergeStep { spill: 1, partition: 0, start: 0, len: 2 },
            MergeStep { spill: 1, partition: 2, start: 2, len: 3 },
        ]
    );
}

#[test]
fn merge_index_begins_at_zero_and_ends_at_the_length() {
    let spills = vec![
        spill_with(&[b"", b"", b"", b"qqqq", b"", b"", b"", b""]),
        spill_with(&[b"", b"", b"", b"rr", b"", b"", b"", b""]),
    ];
    let plan = plan_merge(&spills, 8).unwrap();
    assert_eq!(plan.index, vec![0, 0, 0, 0, 6, 6, 6, 6, 6]);
    let written = perform(&spills, &plan.steps);
    assert_eq!(written, b"qqqqrr".to_vec());
    assert_eq!(*plan.index.last().unwrap(), written.len() as u64);
}

#[test]
fn merge_does_not_depend_on_the_tier() {
    let heap = vec![spill_with(&[b"ab", b"c"]), spill_with(&[b"d", b"ef"])];
    let lower = vec![
        ShuffleSpill { spill: Spill::L2 { spill_id: 5, size: 3 }, offsets: vec![0, 2, 3] },
        ShuffleSpill {
            spill: Spill::L3 { path: String::from("/tmp/s"), size: 3 },
            offsets: vec![0, 1, 3],
        },
    ];
    let a = plan_merge(&heap, 2).unwrap();
    let b = plan_merge(&lower, 2).unwrap();
    assert_eq!(a.steps, b.steps);
    assert_eq!(a.index, b.index);
}

#[test]
fn merge_refuses_an_output_longer_than_an_offset() {
    let huge = || ShuffleSpill {
        spill: Spill::L3 { path: String::from("/tmp/huge"), size: usize::MAX },
        offsets: vec![0, usize::MAX as u64],
    };
    if usize::MAX as u64 == u64::MAX {
        assert!(plan_merge(&vec![huge(), huge()], 1).is_none());
        assert!(plan_merge(&vec![huge()], 1).is_some());
    }
}

#[test]
fn index_is_written_as_little_endian_i64() {
    let bytes = encode_index(&vec![0, 1, 0x0102_0304_0506_0708, u64::MAX]);
    let mut expected = vec![];
    expected.extend_from_slice(&0i64.to_le_bytes());
    expected.extend_from_slice(&1i64.to_le_bytes());
    expected.extend_from_slice(&0x0102_0304_0506_0708i64.to_le_bytes());
    expected.extend_from_slice(&(-1i64).to_le_bytes());
    assert_eq!(bytes, expected);
    assert_eq!(&bytes[16..24], &[8, 7, 6, 5, 4, 3, 2, 1]);
    assert_eq!(encode_index(&vec![]), Vec::<u8>::new());
}

#[test]
fn merge_of_no_partitions_has_an_index_of_one_entry() {
    let spills = vec![ShuffleSpill { spill: Spill::new_l1(vec![]), offsets: vec![0] }];
    let plan = plan_merge(&spills, 0).unwrap();
    assert!(plan.steps.is_empty());
    assert_eq!(plan.index, vec![0]);
}

#[test]
fn merge_copies_each_spill_in_the_order_of_its_bytes() {
    let spills = vec![
        spill_with(&[b"a", b"bc", b"", b"def", b"g"]),
        spill_with(&[b"", b"", b"h", b"", b""]),
    ];
    let plan = plan_merge(&spills, 5).unwrap();
    let mut next = vec![0u64; spills.len()];
    for step in &plan.steps {
        assert!(step.len > 0);
        assert_eq!(step.start, spills[step.spill].offsets[step.partition]);
        assert_eq!(step.start + step.len, spills[step.spill].offsets[step.partition + 1]);
        assert_eq!(step.start, next[step.spill]);
        next[step.spill] = step.start + step.len;
    }
    assert_eq!(next, vec![7, 1]);
    assert_eq!(perform(&spills, &plan.steps), b"abchdefg".to_vec());
    assert_eq!(plan.index, vec![0, 1, 3, 4, 7, 8]);
}
