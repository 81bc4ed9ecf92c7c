//! The index file: one signed 64-bit little-endian integer per offset.

use vstd::prelude::*;

verus! {

/// The eight bytes of `x`, least significant first. They are also the bytes
/// of `x` read as a signed 64-bit integer in two's complement.
pub open spec fn le_bytes(x: u64) -> Seq<u8> {
    seq![
        (x % 0x100) as u8,
        ((x / 0x100) % 0x100) as u8,
        ((x / 0x1_0000) % 0x100) as u8,
        ((x / 0x100_0000) % 0x100) as u8,
        ((x / 0x1_0000_0000) % 0x100) as u8,
        ((x / 0x100_0000_0000) % 0x100) as u8,
        ((x / 0x1_0000_0000_0000) % 0x100) as u8,
        ((x / 0x100_0000_0000_0000) % 0x100) as u8,
    ]
}

/// The number that eight bytes stand for, least significant first.
pub open spec fn le_value(bytes: Seq<u8>) -> int {
    bytes[0] as int + bytes[1] as int * 0x100 + bytes[2] as int * 0x1_0000 + bytes[3] as int
        * 0x100_0000 + bytes[4] as int * 0x1_0000_0000 + bytes[5] as int * 0x100_0000_0000
        + bytes[6] as int * 0x1_0000_0000_0000 + bytes[7] as int * 0x100_0000_0000_0000
}

/// The contents of the index file that records the first `count` of the
/// given offsets.
pub open spec fn index_bytes_upto(index: Seq<u64>, count: int) -> Seq<u8>
    decreases count,
{
    if count <= 0 {
        Seq::empty()
    } else {
        index_bytes_upto(index, count - 1) + le_bytes(index[count - 1])
    }
}

/// The contents of the index file that records the given offsets.
pub open spec fn index_bytes(index: Seq<u64>) -> Seq<u8> {
    index_bytes_upto(index, index.len() as int)
}

/// The eight bytes of an offset stand for the offset.
pub proof fn lemma_le_bytes_value(x: u64)
    ensures
        le_bytes(x).len() == 8,
        le_value(le_bytes(x)) == x,
{
    assert((x % 0x100) + ((x / 0x100) % 0x100) * 0x100 + ((x / 0x1_0000) % 0x100) * 0x1_0000 + ((x
        / 0x100_0000) % 0x100) * 0x100_0000 + ((x / 0x1_0000_0000) % 0x100) * 0x1_0000_0000 + ((x
        / 0x100_0000_0000) % 0x100) * 0x100_0000_0000 + ((x / 0x1_0000_0000_0000) % 0x100)
        * 0x1_0000_0000_0000 + ((x / 0x100_0000_0000_0000) % 0x100) * 0x100_0000_0000_0000 == x)
        by (bit_vector);
}

/// An index file of `count` offsets is `8 * count` bytes long, and the eight
/// bytes from position `8 * p` are those of offset `p`.
pub proof fn lemma_index_bytes_layout(index: Seq<u64>, count: int)
    requires
        0 <= count <= index.len(),
    ensures
        index_bytes_upto(index, count).len() == 8 * count,
        forall|p: int|
            0 <= p < count ==> #[trigger] index_bytes_upto(index, count).subrange(8 * p, 8 * p + 8)
                == le_bytes(index[p]),
    decreases count,
{
    if count > 0 {
        lemma_index_bytes_layout(index, count - 1);
        let before = index_bytes_upto(index, count - 1);
        let all = index_bytes_upto(index, count);
        assert forall|p: int| 0 <= p < count implies #[trigger] all.subrange(8 * p, 8 * p + 8)
            == le_bytes(index[p]) by {
            if p < count - 1 {
                assert(all.subrange(8 * p, 8 * p + 8) =~= before.subrange(8 * p, 8 * p + 8));
            } else {
                assert(all.subrange(8 * p, 8 * p + 8) =~= le_bytes(index[p]));
            }
        }
    }
}

/// An index file of offsets that are all zero holds nothing but zeros.
pub proof fn lemma_index_bytes_of_zeros(index: Seq<u64>, count: int)
    requires
        0 <= count <= index.len(),
        forall|p: int| 0 <= p < count ==> index[p] == 0,
    ensures
        index_bytes_upto(index, count).len() == 8 * count,
        forall|i: int| 0 <= i < 8 * count ==> index_bytes_upto(index, count)[i] == 0,
    decreases count,
{
    if count > 0 {
        lemma_index_bytes_of_zeros(index, count - 1);
        assert(le_bytes(0) =~= seq![0u8, 0u8, 0u8, 0u8, 0u8, 0u8, 0u8, 0u8]);
    }
}

/// Writes each offset as a signed 64-bit little-endian integer, in order.
pub fn encode_index(index: &Vec<u64>) -> (bytes: Vec<u8>)
    ensures
        bytes@ == index_bytes(index@),
{
    let mut bytes: Vec<u8> = Vec::new();
    let mut i: usize = 0;
    while i < index.len()
        invariant
            i <= index.len(),
            bytes@ == index_bytes_upto(index@, i as int),
        decreases index.len() - i,
    {
        let x: u64 = index[i];
        let ghost before = bytes@;
        bytes.push((x % 0x100) as u8);
        bytes.push(((x / 0x100) % 0x100) as u8);
        bytes.push(((x / 0x1_0000) % 0x100) as u8);
        bytes.push(((x / 0x100_0000) % 0x100) as u8);
        bytes.push(((x / 0x1_0000_0000) % 0x100) as u8);
        bytes.push(((x / 0x100_0000_0000) % 0x100) as u8);
        bytes.push(((x / 0x1_0000_0000_0000) % 0x100) as u8);
        bytes.push(((x / 0x100_0000_0000_0000) % 0x100) as u8);
        assert(bytes@ =~= before + le_bytes(x));
        i += 1;
    }
    bytes
}

} // verus!
