//! The sort tuple of a row and the radix sort that groups rows by partition.

use crate::partition::{evaluate_partition_ids, partition_of};
use voracious_radix_sort::RadixSort;
use vstd::prelude::*;

verus! {

/// One row of a batch that is about to be frozen: the partition it goes to,
/// its hash, and its position in the batch.
#[derive(Clone, Copy, Debug)]
pub struct PI {
    pub partition_id: u32,
    pub hash: u32,
    pub index: u32,
}

impl PI {
    /// The sort key as a number: the partition id in the high 32 bits and the
    /// hash in the low 32 bits.
    pub open spec fn spec_key(self) -> int {
        self.partition_id as int * 0x1_0000_0000 + self.hash as int
    }

    /// The position of this tuple in the sorted order: by sort key first, then
    /// by row index.
    pub open spec fn rank(self) -> int {
        self.spec_key() * 0x1_0000_0000 + self.index as int
    }

    /// The 64-bit sort key `(partition_id << 32) | hash`.
    pub fn key(&self) -> (k: u64)
        ensures
            k as int == self.spec_key(),
    {
        let p: u32 = self.partition_id;
        let h: u32 = self.hash;
        assert((((p as u64) << 32) | (h as u64)) == (p as u64) * 0x1_0000_0000 + (h as u64))
            by (bit_vector);
        ((p as u64) << 32) | (h as u64)
    }

    /// The whole tuple as one 96-bit number, the sort key above the row index.
    fn pack(&self) -> (v: u128)
        ensures
            v as int == self.rank(),
    {
        (self.key() as u128) * 0x1_0000_0000 + (self.index as u128)
    }

    /// The tuple whose three fields are the three 32-bit digits of `v`.
    spec fn spec_unpack(v: u128) -> PI {
        PI {
            partition_id: (v / 0x1_0000_0000_0000_0000) as u32,
            hash: ((v / 0x1_0000_0000) % 0x1_0000_0000) as u32,
            index: (v % 0x1_0000_0000) as u32,
        }
    }

    /// The tuple that `pack` turned into `v`.
    fn unpack(v: u128) -> (pi: PI)
        requires
            v < 0x1_0000_0000_0000_0000_0000_0000,
        ensures
            pi == Self::spec_unpack(v),
            pi.rank() == v as int,
    {
        PI {
            partition_id: (v / 0x1_0000_0000_0000_0000) as u32,
            hash: ((v / 0x1_0000_0000) % 0x1_0000_0000) as u32,
            index: (v % 0x1_0000_0000) as u32,
        }
    }
}

/// Two tuples with the same rank are the same tuple.
pub proof fn lemma_rank_injective(a: PI, b: PI)
    requires
        a.rank() == b.rank(),
    ensures
        a == b,
{
}

/// A tuple with a smaller or equal rank has a smaller or equal sort key.
pub proof fn lemma_rank_orders_keys(a: PI, b: PI)
    requires
        a.rank() <= b.rank(),
    ensures
        a.spec_key() <= b.spec_key(),
        a.partition_id <= b.partition_id,
{
}

/// `s` is in ascending order of rank: ascending by sort key, and rows with the
/// same key by row index.
pub open spec fn sorted_by_rank(s: Seq<PI>) -> bool {
    forall|i: int, j: int| 0 <= i <= j < s.len() ==> s[i].rank() <= s[j].rank()
}

/// The sort tuples of the rows with the given hashes, in row order.
pub open spec fn row_tuples(hashes: Seq<u32>, num_partitions: usize) -> Seq<PI> {
    Seq::new(
        hashes.len(),
        |i: int|
            PI {
                partition_id: partition_of(hashes[i], num_partitions) as u32,
                hash: hashes[i],
                index: i as u32,
            },
    )
}

/// Mapping two sequences with the same elements through one function gives
/// sequences with the same elements.
proof fn lemma_map_preserves_multiset<A, B>(a: Seq<A>, b: Seq<A>, f: spec_fn(A) -> B)
    requires
        a.to_multiset() == b.to_multiset(),
    ensures
        a.map_values(f).to_multiset() == b.map_values(f).to_multiset(),
    decreases a.len(),
{
    broadcast use vstd::seq_lib::group_to_multiset_ensures;

    if a.len() == 0 {
        assert(a.to_multiset().len() == 0);
        assert(b.to_multiset().len() == b.len());
        assert(b.len() == 0);
        assert(a.map_values(f) =~= b.map_values(f));
    } else {
        let x = a.last();
        let a1 = a.drop_last();
        assert(a =~= a1.push(x));
        assert(a.to_multiset().count(x) > 0);
        assert(b.contains(x));
        let k = b.index_of(x);
        let b1 = b.remove(k);
        assert(a1.to_multiset() =~= a.to_multiset().remove(x));
        assert(b1.to_multiset() =~= b.to_multiset().remove(x));
        lemma_map_preserves_multiset(a1, b1, f);
        assert(a.map_values(f) =~= a1.map_values(f).push(f(x)));
        assert(b.map_values(f) =~= b1.map_values(f).insert(k, f(x)));
    }
}

/// `voracious_radix_sort::RadixSort::voracious_sort` on a `Vec<u128>`. This is
/// not proved: the crate documents it as a sort of the vector in place, like
/// the standard sort, into ascending order; so the contract says that the
/// vector holds the same numbers afterwards, each as often as before, the
/// smallest first.
#[verifier::external_body]
fn radix_sort(values: &mut Vec<u128>)
    ensures
        final(values)@.to_multiset() == old(values)@.to_multiset(),
        forall|i: int, j: int|
            0 <= i <= j < final(values)@.len() ==> final(values)@[i] <= final(values)@[j],
{
    values.voracious_sort();
}

/// The ranks of the tuples of `s`, in order.
spec fn ranks_of(s: Seq<PI>) -> Seq<u128> {
    s.map_values(|pi: PI| pi.rank() as u128)
}

/// The tuples that the numbers of `s` unpack to, in order.
spec fn tuples_of(s: Seq<u128>) -> Seq<PI> {
    s.map_values(|v: u128| PI::spec_unpack(v))
}

/// Unpacking the rank of a tuple gives the tuple back.
proof fn lemma_unpack_rank(pi: PI)
    ensures
        PI::spec_unpack(pi.rank() as u128) == pi,
{
    let v = pi.rank() as u128;
    assert(v as int == pi.rank());
    assert(PI::spec_unpack(v).rank() == v as int);
    lemma_rank_injective(PI::spec_unpack(v), pi);
}

/// Sorts the tuples into ascending order of sort key; tuples with the same
/// key come out in ascending order of row index.
pub fn sort_by_partition(pi_vec: &mut Vec<PI>)
    ensures
        final(pi_vec)@.to_multiset() == old(pi_vec)@.to_multiset(),
        sorted_by_rank(final(pi_vec)@),
{
    let ghost before = pi_vec@;
    let n: usize = pi_vec.len();
    let mut packed: Vec<u128> = Vec::with_capacity(n);
    let mut i: usize = 0;
    while i < n
        invariant
            i <= n,
            n == pi_vec.len(),
            pi_vec@ == before,
            packed@ == ranks_of(before.take(i as int)),
        decreases n - i,
    {
        let v: u128 = pi_vec[i].pack();
        packed.push(v);
        assert(ranks_of(before.take(i as int + 1)) =~= ranks_of(before.take(i as int)).push(v));
        i += 1;
    }
    assert(before.take(n as int) =~= before);
    let ghost packed_before = packed@;
    radix_sort(&mut packed);
    proof {
        broadcast use vstd::seq_lib::group_to_multiset_ensures;

        assert(packed@.to_multiset().len() == packed_before.to_multiset().len());
        assert(packed@.len() == n);
        assert forall|k: int| 0 <= k < n implies #[trigger] packed@[k]
            < 0x1_0000_0000_0000_0000_0000_0000 by {
            assert(packed@.contains(packed@[k]));
            assert(packed_before.to_multiset().count(packed@[k]) > 0);
            assert(packed_before.contains(packed@[k]));
        }
    }
    let mut sorted: Vec<PI> = Vec::with_capacity(n);
    let mut j: usize = 0;
    while j < n
        invariant
            j <= n,
            n == packed.len(),
            forall|k: int| 0 <= k < n ==> #[trigger] packed@[k] < 0x1_0000_0000_0000_0000_0000_0000,
            sorted@ == tuples_of(packed@.take(j as int)),
        decreases n - j,
    {
        let pi: PI = PI::unpack(packed[j]);
        sorted.push(pi);
        assert(tuples_of(packed@.take(j as int + 1)) =~= tuples_of(packed@.take(j as int)).push(
            pi,
        ));
        j += 1;
    }
    proof {
        assert(packed@.take(n as int) =~= packed@);
        lemma_map_preserves_multiset(packed@, packed_before, |v: u128| PI::spec_unpack(v));
        assert(tuples_of(packed@) =~= packed@.map_values(|v: u128| PI::spec_unpack(v)));
        assert(tuples_of(packed_before) =~= packed_before.map_values(
            |v: u128| PI::spec_unpack(v),
        ));
        assert(tuples_of(packed_before) =~= before) by {
            assert forall|k: int| 0 <= k < n implies tuples_of(packed_before)[k] == before[k] by {
                lemma_unpack_rank(before[k]);
            }
        }
        assert forall|a: int, b: int| 0 <= a <= b < n implies sorted@[a].rank()
            <= sorted@[b].rank() by {
            assert(sorted@[a] == PI::spec_unpack(packed@[a]));
            assert(sorted@[b] == PI::spec_unpack(packed@[b]));
            assert(PI::spec_unpack(packed@[a]).rank() == packed@[a] as int);
            assert(PI::spec_unpack(packed@[b]).rank() == packed@[b] as int);
        }
    }
    *pi_vec = sorted;
}

/// Builds one sort tuple per row, with the row's partition id, its hash and
/// its position, and sorts them by partition.
pub fn sort_rows(hashes: &Vec<u32>, num_partitions: usize) -> (pi_vec: Vec<PI>)
    requires
        num_partitions > 0,
        hashes.len() <= 0x1_0000_0000,
    ensures
        pi_vec@.to_multiset() == row_tuples(hashes@, num_partitions).to_multiset(),
        sorted_by_rank(pi_vec@),
{
    let partition_ids = evaluate_partition_ids(hashes, num_partitions);
    let n: usize = hashes.len();
    let mut pi_vec: Vec<PI> = Vec::with_capacity(n);
    let mut i: usize = 0;
    while i < n
        invariant
            i <= n,
            n == hashes.len(),
            n <= 0x1_0000_0000,
            partition_ids.len() == n,
            forall|k: int|
                0 <= k < n ==> #[trigger] partition_ids[k] as int == partition_of(
                    hashes[k],
                    num_partitions,
                ),
            pi_vec@ == row_tuples(hashes@, num_partitions).take(i as int),
        decreases n - i,
    {
        pi_vec.push(PI { partition_id: partition_ids[i], hash: hashes[i], index: i as u32 });
        assert(row_tuples(hashes@, num_partitions).take(i as int + 1) =~= row_tuples(
            hashes@,
            num_partitions,
        ).take(i as int).push(row_tuples(hashes@, num_partitions)[i as int]));
        i += 1;
    }
    assert(row_tuples(hashes@, num_partitions).take(n as int) =~= row_tuples(
        hashes@,
        num_partitions,
    ));
    sort_by_partition(&mut pi_vec);
    pi_vec
}

} // verus!
