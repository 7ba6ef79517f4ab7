//! Random identities for refreshing the buckets of the routing table, and
//! the iterative lookup of the closest peers.

use vstd::prelude::*;
use crate::random::random_byte;

pub mod lookup;

verus! {

/// The bits of byte `b` that a mask of `m` low bits keeps.
pub open spec fn high_bits(b: u8, m: u8) -> u8 {
    b & !m
}

/// Generates a random identity of the same length as `my_id` (both held
/// as bytes) that belongs to bucket `bucket_num`: the leading bytes are
/// those of `my_id`, the low `(bucket_num + 1) % 8` bits of the byte after
/// them are random and the bytes after that one are random.
///
/// Returns an error if `bucket_num` is out of range for the length of the
/// identity (the two leading bytes of a multihash are never changed).
pub fn gen_random_id(my_id: &Vec<u8>, bucket_num: usize) -> (r: Result<Vec<u8>, ()>)
    requires
        2 <= my_id@.len() <= 64,
        bucket_num < usize::MAX,
    ensures
        r is Err <==> bucket_num + 1 > 8 * (my_id@.len() - 2),
        r matches Ok(id) ==> {
            let pos = my_id@.len() - (bucket_num + 1) / 8 - 1;
            let mask = (((1u8 << (((bucket_num + 1) % 8) as u8)) - 1) as u8);
            &&& id@.len() == my_id@.len()
            &&& 1 <= pos < my_id@.len()
            &&& forall|j: int| 0 <= j < pos ==> id@[j] == my_id@[j]
            &&& high_bits(id@[pos], mask) == high_bits(my_id@[pos], mask)
        },
{
    let my_id_len = my_id.len();
    let bits_diff = bucket_num + 1;
    if bits_diff > 8 * (my_id_len - 2) {
        return Err(());
    }
    let pos = my_id_len - bits_diff / 8 - 1;
    let shift = (bits_diff % 8) as u8;
    assert(shift < 8);
    assert((1u8 << shift) >= 1) by (bit_vector)
        requires
            shift < 8,
    ;
    let mask: u8 = (1u8 << shift) - 1;
    let mut random_id: Vec<u8> = Vec::new();
    let mut byte: usize = 0;
    while byte < my_id_len
        invariant
            my_id_len == my_id@.len(),
            byte <= my_id_len,
            random_id@.len() == byte,
            1 <= pos < my_id_len,
            forall|j: int| 0 <= j < byte && j < pos ==> random_id@[j] == my_id@[j],
            byte > pos ==> high_bits(random_id@[pos as int], mask) == high_bits(my_id@[pos as int], mask),
        decreases my_id_len - byte,
    {
        if byte < pos {
            random_id.push(my_id[byte]);
        } else if byte == pos {
            let m = my_id[byte];
            let rb = random_byte();
            let b = (m & !mask) | (rb & mask);
            assert(b & !mask == m & !mask) by (bit_vector)
                requires
                    b == (m & !mask) | (rb & mask),
            ;
            random_id.push(b);
        } else {
            random_id.push(random_byte());
        }
        byte += 1;
    }
    Ok(random_id)
}

} // verus!
