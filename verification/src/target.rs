//! Difficulty targets.
use crate::bytes;
use vstd::prelude::*;

verus! {

/// Whether a hash is below its target, both read as big-endian 256-bit numbers.
pub fn hash_meets_target(hash: &[u8; 32], target: &[u8; 32]) -> (meets: bool)
    ensures
        meets == (bytes::be_nat(hash@) < bytes::be_nat(target@)),
{
    let mut at: usize = 0;
    while at < 32
        invariant
            at <= 32,
            forall|i: int| 0 <= i < at ==> #[trigger] hash@[i] == target@[i],
        decreases 32 - at,
    {
        if hash[at] != target[at] {
            proof {
                assert(hash@.take(at as int) =~= target@.take(at as int));
                if hash@[at as int] < target@[at as int] {
                    bytes::lemma_first_difference_orders(hash@, target@, at as int);
                } else {
                    bytes::lemma_first_difference_orders(target@, hash@, at as int);
                }
            }
            return hash[at] < target[at];
        }
        at = at + 1;
    }
    assert(hash@ =~= target@);
    false
}

/// A hash meets its target where it is smaller in the first byte in which the two
/// differ.
pub proof fn law_first_different_byte_decides(hash: &[u8; 32], target: &[u8; 32], meets: bool)
    requires
        call_ensures(hash_meets_target, (hash, target), meets),
    ensures
        meets <==> exists|at: int|
            0 <= at < 32 && #[trigger] hash@[at] < target@[at] && hash@.take(at) == target@.take(at),
{
    bytes::law_first_difference_decides(hash@, target@);
}

} // verus!
