//! Single-bit reads and writes on bytes, shared by the bloom filters.

use vstd::prelude::*;

verus! {

/// Whether bit `n` (counting from the least significant end) of `data` is set.
pub open spec fn spec_bit(data: u8, n: u8) -> bool {
    (data >> n) & 1 == 1
}

/// Bit 0 of the zero byte is never set.
pub proof fn lemma_zero_bits(n: u8)
    requires
        n < 8,
    ensures
        !spec_bit(0u8, n),
{
    assert((0u8 >> n) & 1 == 0) by (bit_vector);
}

/// Test bit `n` of a byte.
pub fn check_bit(data: u8, n: u8) -> (r: bool)
    requires
        n < 8,
    ensures
        r == spec_bit(data, n),
{
    let r = data & (1u8 << n);
    proof {
        assert(((data & (1u8 << n)) > 0) == ((data >> n) & 1 == 1)) by (bit_vector)
            requires
                n < 8,
        ;
    }
    r > 0
}

/// Set bit `n` of a byte, leaving every other bit as it was.
pub fn set_bit(data: u8, n: u8) -> (r: u8)
    requires
        n < 8,
    ensures
        forall|j: u8| j < 8 ==> spec_bit(r, j) == (spec_bit(data, j) || j == n),
{
    let r = data | (1u8 << n);
    proof {
        assert forall|j: u8| j < 8 implies spec_bit(r, j) == (spec_bit(data, j) || j == n) by {
            assert((((data | (1u8 << n)) >> j) & 1 == 1) == (((data >> j) & 1 == 1) || j == n))
                by (bit_vector)
                requires
                    n < 8,
                    j < 8,
            ;
        }
    }
    r
}

} // verus!
