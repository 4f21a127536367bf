//! Integers as little-endian bytes.

use vstd::prelude::*;

verus! {

/// The `count` lowest bytes of `value`, lowest first.
pub open spec fn le_bytes_of(value: nat, count: nat) -> Seq<u8>
    decreases count,
{
    if count == 0 {
        Seq::empty()
    } else {
        seq![(value % 256) as u8] + le_bytes_of(value / 256, (count - 1) as nat)
    }
}

/// The eight bytes of `value` in little-endian order.
pub open spec fn le_bytes(value: u64) -> Seq<u8> {
    le_bytes_of(value as nat, 8)
}

/// `le_bytes_of` yields as many bytes as it is asked for.
pub proof fn lemma_le_bytes_len(value: nat, count: nat)
    ensures
        le_bytes_of(value, count).len() == count,
    decreases count,
{
    if count > 0 {
        lemma_le_bytes_len(value / 256, (count - 1) as nat);
    }
}

/// Encodes `value` as eight bytes, lowest byte first.
pub fn int_to_bytes8(value: u64) -> (bytes: Vec<u8>)
    ensures
        bytes@ == le_bytes(value),
        bytes@.len() == 8,
{
    let mut bytes: Vec<u8> = Vec::with_capacity(8);
    let mut rest: u64 = value;
    let mut i: usize = 0;
    while i < 8
        invariant
            i <= 8,
            bytes@.len() == i,
            bytes@ + le_bytes_of(rest as nat, (8 - i) as nat) == le_bytes(value),
        decreases 8 - i,
    {
        let ghost before = bytes@;
        bytes.push((rest % 256) as u8);
        proof {
            assert(bytes@ + le_bytes_of((rest / 256) as nat, (8 - i - 1) as nat) =~= before
                + le_bytes_of(rest as nat, (8 - i) as nat));
        }
        rest = rest / 256;
        i += 1;
    }
    assert(bytes@ + le_bytes_of(rest as nat, 0) =~= bytes@);
    bytes
}

} // verus!
