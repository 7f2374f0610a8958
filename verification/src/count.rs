//! Counting bytes in 64 bits.

use vstd::prelude::*;

verus! {

/// Adds a number of bytes to a total, both modulo 2^64.
pub(crate) fn plus(total: u64, more: u64, Ghost(a): Ghost<nat>, Ghost(b): Ghost<nat>) -> (r: u64)
    requires
        total == a % 0x1_0000_0000_0000_0000,
        more == b % 0x1_0000_0000_0000_0000,
    ensures
        r == (a + b) % 0x1_0000_0000_0000_0000,
{
    proof {
        vstd::arithmetic::div_mod::lemma_add_mod_noop(
            a as int,
            b as int,
            0x1_0000_0000_0000_0000,
        );
    }
    total.wrapping_add(more)
}

} // verus!
