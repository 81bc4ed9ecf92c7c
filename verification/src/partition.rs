//! Partition keys: from a row's hash to the output partition it belongs to.

use vstd::prelude::*;

verus! {

/// The partition that a row with hash `hash` belongs to when there are
/// `num_partitions` output partitions.
pub open spec fn partition_of(hash: u32, num_partitions: usize) -> int {
    (hash as int) % (num_partitions as int)
}

/// Proves that a row's partition lies in `[0, num_partitions)` and does not
/// exceed its hash.
pub proof fn lemma_partition_of_bounds(hash: u32, num_partitions: usize)
    requires
        num_partitions > 0,
    ensures
        0 <= partition_of(hash, num_partitions) < num_partitions,
        partition_of(hash, num_partitions) <= hash,
{
    vstd::arithmetic::div_mod::lemma_mod_decreases(hash as nat, num_partitions as nat);
}

/// Proves that a hash below the number of partitions is its own partition.
pub proof fn lemma_partition_of_small(hash: u32, num_partitions: usize)
    requires
        hash < num_partitions,
    ensures
        partition_of(hash, num_partitions) == hash,
{
    vstd::arithmetic::div_mod::lemma_small_mod(hash as nat, num_partitions as nat);
}

/// Maps each hash to its partition id, `hash mod num_partitions`.
pub fn evaluate_partition_ids(hashes: &Vec<u32>, num_partitions: usize) -> (ids: Vec<u32>)
    requires
        num_partitions > 0,
    ensures
        ids.len() == hashes.len(),
        forall|i: int|
            0 <= i < hashes.len() ==> #[trigger] ids[i] as int == partition_of(
                hashes[i],
                num_partitions,
            ),
{
    let mut ids: Vec<u32> = Vec::with_capacity(hashes.len());
    let mut i: usize = 0;
    while i < hashes.len()
        invariant
            num_partitions > 0,
            i <= hashes.len(),
            ids.len() == i,
            forall|j: int|
                0 <= j < i ==> #[trigger] ids[j] as int == partition_of(hashes[j], num_partitions),
        decreases hashes.len() - i,
    {
        let hash: u32 = hashes[i];
        let id: u32 = if num_partitions > u32::MAX as usize {
            proof {
                lemma_partition_of_small(hash, num_partitions);
            }
            hash
        } else {
            hash % (num_partitions as u32)
        };
        ids.push(id);
        i += 1;
    }
    ids
}

} // verus!
