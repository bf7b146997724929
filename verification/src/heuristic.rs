use vstd::prelude::*;

verus! {

/// Grid dimensions the search accepts: at least one cell each way, and small
/// enough that every squared wrap-corrected delta fits 128-bit arithmetic.
pub open spec fn dims_ok(rows: int, cols: int) -> bool {
    &&& 1 <= rows <= 0x4000_0000_0000_0000
    &&& 1 <= cols <= 0x4000_0000_0000_0000
}

/// Absolute value.
pub open spec fn abs_int(d: int) -> int {
    if d < 0 {
        -d
    } else {
        d
    }
}

/// Saturation of a mathematical integer to the `u64` range.
pub open spec fn cap64(x: int) -> int {
    if x > u64::MAX {
        u64::MAX as int
    } else {
        x
    }
}

/// Wraparound correction of one raw coordinate delta: when the magnitude
/// exceeds half of `other_dim`, the path around the wrap is shorter, and the
/// delta is replaced by `other_dim` minus its magnitude. The correction
/// deliberately pairs each axis with the other axis's dimension (the row
/// delta against the column count and vice versa), a documented quirk of
/// the cost model that only shows on non-square grids.
pub open spec fn wrap_delta(d: int, other_dim: int) -> int {
    if abs_int(d) > other_dim / 2 {
        other_dim - abs_int(d)
    } else {
        d
    }
}

/// Integer square root: the greatest `r` with `r * r <= n` (0 for negative
/// arguments).
pub open spec fn isqrt_spec(n: int) -> int
    decreases n,
{
    if n < 1 {
        0
    } else {
        let r = isqrt_spec(n - 1);
        if (r + 1) * (r + 1) <= n {
            r + 1
        } else {
            r
        }
    }
}

/// `isqrt_spec(n)` squares to at most `n`, and is the last root that does.
pub proof fn lemma_isqrt_bounds(n: int)
    requires
        0 <= n,
    ensures
        0 <= isqrt_spec(n),
        isqrt_spec(n) * isqrt_spec(n) <= n,
        n < (isqrt_spec(n) + 1) * (isqrt_spec(n) + 1),
    decreases n,
{
    if n == 0 {
        assert(isqrt_spec(0) == 0);
    } else {
        lemma_isqrt_bounds(n - 1);
        let r = isqrt_spec(n - 1);
        if (r + 1) * (r + 1) <= n {
            assert(isqrt_spec(n) == r + 1);
            assert(n <= (r + 1) * (r + 1));
            assert((r + 1) * (r + 1) < (r + 2) * (r + 2)) by (nonlinear_arith)
                requires
                    r >= 0,
            ;
        } else {
            assert(isqrt_spec(n) == r);
        }
    }
}

/// Any `r` whose square brackets `n` is the integer square root of `n`.
pub proof fn lemma_isqrt_unique(n: int, r: int)
    requires
        0 <= n,
        0 <= r,
        r * r <= n,
        n < (r + 1) * (r + 1),
    ensures
        r == isqrt_spec(n),
{
    lemma_isqrt_bounds(n);
    let s = isqrt_spec(n);
    if r < s {
        assert((r + 1) * (r + 1) <= s * s) by (nonlinear_arith)
            requires
                0 <= r,
                r + 1 <= s,
        ;
        assert(false);
    }
    if s < r {
        assert((s + 1) * (s + 1) <= r * r) by (nonlinear_arith)
            requires
                0 <= s,
                s + 1 <= r,
        ;
        assert(false);
    }
}

/// Executable integer square root by bisection.
pub fn isqrt_u128(n: u128) -> (r: u64)
    requires
        (n as int) < 0x4000_0000_0000_0000_0000_0000_0000_0000,
    ensures
        r as int == isqrt_spec(n as int),
        (r as int) < 0x8000_0000_0000_0000,
{
    let mut lo: u128 = 0;
    let mut hi: u128 = 0x8000_0000_0000_0000;
    proof {
        assert((hi as int) * (hi as int) == 0x4000_0000_0000_0000_0000_0000_0000_0000)
            by (nonlinear_arith)
            requires
                hi as int == 0x8000_0000_0000_0000,
        ;
    }
    while lo + 1 < hi
        invariant
            lo < hi,
            hi <= 0x8000_0000_0000_0000,
            (lo as int) * (lo as int) <= n as int,
            (n as int) < (hi as int) * (hi as int),
        decreases hi - lo,
    {
        let mid: u128 = lo + (hi - lo) / 2;
        proof {
            assert((mid as int) * (mid as int) <= 0x4000_0000_0000_0000_0000_0000_0000_0000)
                by (nonlinear_arith)
                requires
                    0 <= mid as int <= 0x8000_0000_0000_0000,
            ;
        }
        if mid * mid <= n {
            lo = mid;
        } else {
            hi = mid;
        }
    }
    proof {
        lemma_isqrt_unique(n as int, lo as int);
    }
    lo as u64
}

/// Wraparound correction of one raw coordinate delta (executable form).
pub fn wrap_delta_exec(d: i128, other_dim: usize) -> (r: i128)
    requires
        abs_int(d as int) <= 0x4000_0000_0000_0000,
        other_dim <= 0x4000_0000_0000_0000,
    ensures
        r as int == wrap_delta(d as int, other_dim as int),
        abs_int(r as int) <= (if abs_int(d as int) >= other_dim as int {
            abs_int(d as int)
        } else {
            other_dim as int
        }),
{
    let ad: i128 = if d < 0 {
        -d
    } else {
        d
    };
    let half: i128 = (other_dim as i128) / 2;
    if ad > half {
        (other_dim as i128) - ad
    } else {
        d
    }
}

/// The heuristic estimate from a candidate position to the end position:
/// the Euclidean norm of the wrap-corrected deltas, truncated to an integer.
pub open spec fn heuristic_spec(vr: int, vc: int, er: int, ec: int, rows: int, cols: int) -> int {
    let dx = wrap_delta(er - vr, cols);
    let dy = wrap_delta(ec - vc, rows);
    isqrt_spec(dx * dx + dy * dy)
}

/// Executable heuristic estimate.
pub fn heuristic(vr: usize, vc: usize, er: usize, ec: usize, rows: usize, cols: usize) -> (h: u64)
    requires
        dims_ok(rows as int, cols as int),
        vr < rows,
        vc < cols,
        er < rows,
        ec < cols,
    ensures
        h as int == heuristic_spec(vr as int, vc as int, er as int, ec as int, rows as int,
            cols as int),
        (h as int) < 0x8000_0000_0000_0000,
{
    let dx: i128 = wrap_delta_exec(er as i128 - vr as i128, cols);
    let dy: i128 = wrap_delta_exec(ec as i128 - vc as i128, rows);
    proof {
        assert((dx as int) * (dx as int) <= 0x1000_0000_0000_0000_0000_0000_0000_0000
            && 0 <= (dx as int) * (dx as int)) by (nonlinear_arith)
            requires
                abs_int(dx as int) <= 0x4000_0000_0000_0000,
        ;
        assert((dy as int) * (dy as int) <= 0x1000_0000_0000_0000_0000_0000_0000_0000
            && 0 <= (dy as int) * (dy as int)) by (nonlinear_arith)
            requires
                abs_int(dy as int) <= 0x4000_0000_0000_0000,
        ;
    }
    let sq: i128 = dx * dx + dy * dy;
    isqrt_u128(sq as u128)
}

/// Base movement cost of one step: 14 for a diagonal step (both coordinates
/// change), 10 for a cardinal step.
pub open spec fn step_base(dr: int, dc: int) -> int {
    if dr != 0 && dc != 0 {
        14
    } else {
        10
    }
}

/// The tenth power.
pub open spec fn pow10_spec(c: int) -> int {
    c * c * c * c * c * c * c * c * c * c
}

/// Scaling of the combined step cost under the chosen cost-growth mode:
/// aggressive raises it to the tenth power, normal multiplies it by ten.
pub open spec fn step_scaled_spec(cost: int, aggressive: bool) -> int {
    if aggressive {
        pow10_spec(cost)
    } else {
        cost * 10
    }
}

/// The tentative distance reached by one step: the current distance plus the
/// scaled step cost, saturated to the `u64` range.
pub open spec fn new_distance_spec(d: int, cost: int, aggressive: bool) -> int {
    cap64(d + step_scaled_spec(cost, aggressive))
}

/// Saturating multiplication on `u64`.
pub fn sat_mul_u64(a: u64, b: u64) -> (r: u64)
    ensures
        r as int == cap64(a as int * b as int),
{
    match a.checked_mul(b) {
        Some(c) => c,
        None => u64::MAX,
    }
}

/// Saturating addition on `u64`.
pub fn sat_add_u64(a: u64, b: u64) -> (r: u64)
    ensures
        r as int == cap64(a as int + b as int),
{
    match a.checked_add(b) {
        Some(c) => c,
        None => u64::MAX,
    }
}

/// Saturating a factor before a product saturates to the same result as
/// saturating the whole product.
pub proof fn lemma_cap_mul(p: int, c: int)
    requires
        0 <= p,
        0 <= c,
    ensures
        cap64(cap64(p) * c) == cap64(p * c),
{
    let m = u64::MAX as int;
    if p <= m {
    } else {
        if c == 0 {
            assert(m * 0 == 0);
            assert(p * 0 == 0) by (nonlinear_arith);
        } else {
            assert(p * c >= p) by (nonlinear_arith)
                requires
                    p >= 0,
                    c >= 1,
            ;
            assert(m * c >= m) by (nonlinear_arith)
                requires
                    m >= 0,
                    c >= 1,
            ;
        }
    }
}

/// Saturating an addend before a sum saturates to the same result as
/// saturating the whole sum, and the sum never falls below the base.
pub proof fn lemma_cap_add(d: int, x: int)
    requires
        0 <= d <= u64::MAX,
        0 <= x,
    ensures
        cap64(d + cap64(x)) == cap64(d + x),
        d <= cap64(d + x),
{
}

/// Saturating tenth power on `u64`.
pub fn sat_pow10(c: u64) -> (r: u64)
    ensures
        r as int == cap64(pow10_spec(c as int)),
{
    let ghost x: int = c as int;
    let ghost p2: int = x * x;
    let ghost p3: int = p2 * x;
    let ghost p4: int = p3 * x;
    let ghost p5: int = p4 * x;
    let ghost p6: int = p5 * x;
    let ghost p7: int = p6 * x;
    let ghost p8: int = p7 * x;
    let ghost p9: int = p8 * x;
    let ghost p10: int = p9 * x;
    proof {
        assert(p2 >= 0 && p3 >= 0 && p4 >= 0 && p5 >= 0 && p6 >= 0 && p7 >= 0 && p8 >= 0 && p9 >= 0
            && p10 >= 0) by (nonlinear_arith)
            requires
                x >= 0,
                p2 == x * x,
                p3 == p2 * x,
                p4 == p3 * x,
                p5 == p4 * x,
                p6 == p5 * x,
                p7 == p6 * x,
                p8 == p7 * x,
                p9 == p8 * x,
                p10 == p9 * x,
        ;
        lemma_cap_mul(p2, x);
        lemma_cap_mul(p3, x);
        lemma_cap_mul(p4, x);
        lemma_cap_mul(p5, x);
        lemma_cap_mul(p6, x);
        lemma_cap_mul(p7, x);
        lemma_cap_mul(p8, x);
        lemma_cap_mul(p9, x);
    }
    let r2: u64 = sat_mul_u64(c, c);
    let r3: u64 = sat_mul_u64(r2, c);
    let r4: u64 = sat_mul_u64(r3, c);
    let r5: u64 = sat_mul_u64(r4, c);
    let r6: u64 = sat_mul_u64(r5, c);
    let r7: u64 = sat_mul_u64(r6, c);
    let r8: u64 = sat_mul_u64(r7, c);
    let r9: u64 = sat_mul_u64(r8, c);
    let r10: u64 = sat_mul_u64(r9, c);
    proof {
        assert(p10 == pow10_spec(x));
    }
    r10
}

/// The tentative distance reached by one step (executable form). The result
/// never falls below the current distance: scaled step costs are nonnegative.
pub fn new_distance(d: u64, cost: u64, is_aggressive: bool) -> (nd: u64)
    ensures
        nd as int == new_distance_spec(d as int, cost as int, is_aggressive),
        d <= nd,
{
    let s: u64 = if is_aggressive {
        sat_pow10(cost)
    } else {
        sat_mul_u64(cost, 10)
    };
    proof {
        if is_aggressive {
            assert(pow10_spec(cost as int) >= 0) by (nonlinear_arith)
                requires
                    cost as int >= 0,
            ;
        }
        lemma_cap_add(d as int, step_scaled_spec(cost as int, is_aggressive));
    }
    sat_add_u64(d, s)
}

} // verus!
