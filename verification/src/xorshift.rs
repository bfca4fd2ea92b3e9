//! A small generator of numbers for measurements.

use vstd::prelude::*;

verus! {

/// The state after one step: shifted left by 13, right by 7 and left by 17, each
/// time mixed with what it was.
pub open spec fn stepped(state: u64) -> u64 {
    let a = state ^ (state << 13u64);
    let b = a ^ (a >> 7u64);
    b ^ (b << 17u64)
}

/// Makes one step and gives the low half of the new state.
pub fn xorshift(state: &mut u64) -> (r: u32)
    ensures
        *final(state) == stepped(*old(state)),
        r == stepped(*old(state)) % 0x1_0000_0000,
{
    let mut x: u64 = *state;
    x = x ^ (x << 13u64);
    x = x ^ (x >> 7u64);
    x = x ^ (x << 17u64);
    *state = x;
    (x % 0x1_0000_0000) as u32
}

/// A step never leads to zero but from zero.
pub proof fn law_steps_avoid_zero(state: u64)
    requires
        state != 0,
    ensures
        stepped(state) != 0,
{
    assert(state ^ (state << 13u64) != 0) by (bit_vector)
        requires
            state != 0,
    ;
    let a = state ^ (state << 13u64);
    assert(a ^ (a >> 7u64) != 0) by (bit_vector)
        requires
            a != 0,
    ;
    let b = a ^ (a >> 7u64);
    assert(b ^ (b << 17u64) != 0) by (bit_vector)
        requires
            b != 0,
    ;
}

} // verus!
