//! Small arithmetic helpers for 32-bit peer identifiers: ceiling division,
//! overflow-free midpoints, and the XOR metric of the identifier space.

use vstd::prelude::*;

verus! {

/// Ceiling division on `u32`: the least `q` with `q * rhs >= lhs`.
/// Dividing by zero is refused.
pub fn div_ceil(lhs: u32, rhs: u32) -> (r: u32)
    requires
        rhs > 0,
    ensures
        r == if lhs % rhs == 0 { (lhs / rhs) as int } else { lhs / rhs + 1 },
{
    let q = lhs / rhs;
    if lhs % rhs == 0 {
        q
    } else {
        assert(rhs >= 2 && q < u32::MAX) by (nonlinear_arith)
            requires
                rhs > 0,
                q == lhs / rhs,
                lhs % rhs != 0,
                lhs <= u32::MAX,
        {
        }
        q + 1
    }
}

/// Midpoint of `lhs` and `rhs` (rounded down), computed without overflow
/// even for `rhs == u32::MAX`.
pub fn middle_point(lhs: u32, rhs: u32) -> (r: u32)
    requires
        lhs <= rhs,
    ensures
        r == lhs + (rhs - lhs) / 2,
        lhs <= r <= rhs,
{
    lhs + (rhs - lhs) / 2
}

/// Distance between two identifiers: their bitwise XOR, smaller is closer.
pub fn distance(lhs: u32, rhs: u32) -> (r: u32)
    ensures
        r == (lhs ^ rhs),
{
    lhs ^ rhs
}

/// Remapping an identifier by XOR and unmapping it with the same reference
/// point gives the identifier back: the remapping is its own inverse.
pub proof fn lemma_distance_involution(a: u32, b: u32)
    ensures
        ((a ^ b) ^ b) == a,
{
    assert(((a ^ b) ^ b) == a) by (bit_vector);
}

} // verus!
