//! Small arithmetic helpers shared by the image pipeline.

use vstd::prelude::*;

verus! {

/// `r` is the integer square root of `n`: the greatest integer whose square
/// does not exceed `n`.
pub open spec fn is_sqrt_floor(n: int, r: int) -> bool {
    &&& 0 <= r
    &&& r * r <= n
    &&& n < (r + 1) * (r + 1)
}

/// The integer square root is unique.
pub proof fn lemma_sqrt_floor_unique(n: int, r1: int, r2: int)
    requires
        is_sqrt_floor(n, r1),
        is_sqrt_floor(n, r2),
    ensures
        r1 == r2,
{
    if r1 < r2 {
        assert(r2 * r2 <= n);
        assert((r1 + 1) * (r1 + 1) <= r2 * r2) by (nonlinear_arith)
            requires
                0 <= r1,
                r1 + 1 <= r2,
        ;
    }
    if r2 < r1 {
        assert(r1 * r1 <= n);
        assert((r2 + 1) * (r2 + 1) <= r1 * r1) by (nonlinear_arith)
            requires
                0 <= r2,
                r2 + 1 <= r1,
        ;
    }
}

/// Integer square root of a small value, by linear search from zero.  The
/// inputs this crate needs never exceed `255 * 255`, so the search is short.
pub fn isqrt_small(n: u32) -> (r: u32)
    requires
        n <= 65535,
    ensures
        is_sqrt_floor(n as int, r as int),
        r <= 255,
{
    let mut r: u32 = 0;
    while (r + 1) * (r + 1) <= n
        invariant
            n <= 65535,
            r <= 255,
            r * r <= n,
            (r + 1) * (r + 1) <= 65536,
        decreases 256 - r,
    {
        assert(r < 255) by {
            assert((r + 1) * (r + 1) <= 65535);
            if r >= 255 {
                assert((r + 1) * (r + 1) >= 256 * 256) by (nonlinear_arith)
                    requires
                        r >= 255,
                ;
            }
        }
        r = r + 1;
        assert((r + 1) * (r + 1) <= 65536) by (nonlinear_arith)
            requires
                r <= 255,
        ;
    }
    r
}

} // verus!
