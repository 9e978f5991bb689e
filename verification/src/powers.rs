//! Powers of two.

use vstd::arithmetic::power2::pow2;
use vstd::prelude::*;

verus! {

/// True when `n` is a power of two.
pub open spec fn is_power_of_two(n: int) -> bool {
    exists|e: nat| n == pow2(e)
}

/// Returns the smallest power of two that is greater than or equal to `num`.
///
/// For `num <= 1` the result is `1` (the smallest power of two).
pub fn nearest_power_of_2(num: usize) -> (r: usize)
    requires
        num <= usize::MAX / 2 + 1,
    ensures
        is_power_of_two(r as int),
        r >= num,
        num <= 1 ==> r == 1,
        num > 1 ==> r < 2 * num,
{
    let mut result: usize = 1;
    proof {
        vstd::arithmetic::power2::lemma2_to64();
        assert(1 == pow2(0));
    }
    while result < num
        invariant
            1 <= result,
            num <= usize::MAX / 2 + 1,
            is_power_of_two(result as int),
            result == 1 || result < 2 * num,
        decreases 2 * num - result,
    {
        proof {
            let e = choose|e: nat| result as int == pow2(e);
            assert(2 * result as int == pow2(e + 1)) by {
                vstd::arithmetic::power2::lemma_pow2_unfold(e + 1);
            }
        }
        result = result * 2;
    }
    result
}

} // verus!
