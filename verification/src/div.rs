//! Ceiling division on 64-bit sizes, used by the chunk layout arithmetic.

use vstd::prelude::*;

verus! {

/// Ceiling division on `u64`: the least `q` with `q * b >= a`.
/// Dividing by zero is refused.
pub fn div_ceil(a: u64, b: u64) -> (r: u64)
    requires
        b > 0,
    ensures
        r == if a % b == 0 { (a / b) as int } else { a / b + 1 },
{
    let q = a / b;
    if a % b == 0 {
        q
    } else {
        assert(b >= 2 && q < u64::MAX) by (nonlinear_arith)
            requires
                b > 0,
                q == a / b,
                a % b != 0,
                a <= u64::MAX,
        {
        }
        q + 1
    }
}

} // verus!
