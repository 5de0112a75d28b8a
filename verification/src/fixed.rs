//! Fixed-point scalars.
//!
//! A scalar is an `i64` that counts thousandths of a unit. Stored scalars stay
//! within `[-LIMIT, LIMIT]`: operations compute the exact integer result and
//! then clamp it into that range.

use vstd::prelude::*;

verus! {

/// The number of fixed-point steps in one whole unit.
pub const SCALE: i64 = 1000;

/// The largest magnitude of a stored scalar.
pub const LIMIT: i64 = 1_000_000_000_000_000;

/// Whether `v` is a storable scalar.
pub open spec fn in_range(v: int) -> bool {
    -LIMIT <= v <= LIMIT
}

/// The storable scalar nearest to `v`.
pub open spec fn clamp(v: int) -> int {
    if v < -LIMIT {
        -(LIMIT as int)
    } else if v > LIMIT {
        LIMIT as int
    } else {
        v
    }
}

/// The quotient of `n` by a positive `d`, rounded toward zero.
pub open spec fn quot(n: int, d: int) -> int
    recommends
        d > 0,
{
    if n >= 0 {
        n / d
    } else {
        -((-n) / d)
    }
}

/// Whether `r` is the integer square root of `n`, rounded down.
pub open spec fn is_root(n: int, r: int) -> bool {
    0 <= r && r * r <= n < (r + 1) * (r + 1)
}

/// The integer square root of a non-negative `n`, rounded down.
pub open spec fn root(n: int) -> int
    recommends
        n >= 0,
{
    choose|r: int| is_root(n, r)
}

/// Every non-negative integer has a rounded-down square root.
pub proof fn lemma_root_exists(n: int)
    requires
        n >= 0,
    ensures
        is_root(n, root(n)),
    decreases n,
{
    if n == 0 {
        assert(is_root(0, 0));
    } else {
        lemma_root_exists(n - 1);
        let r = root(n - 1);
        if (r + 1) * (r + 1) <= n {
            assert((r + 1) * (r + 1) < (r + 2) * (r + 2)) by (nonlinear_arith)
                requires
                    r >= 0,
            ;
            assert(is_root(n, r + 1));
        } else {
            assert(is_root(n, r));
        }
    }
}

/// Squaring keeps the order of non-negative integers.
pub proof fn lemma_square_order(a: int, b: int)
    requires
        0 <= a <= b,
    ensures
        a * a <= b * b,
{
    assert(a * a <= b * b) by (nonlinear_arith)
        requires
            0 <= a <= b,
    ;
}

/// The rounded-down square root is unique.
pub proof fn lemma_root_unique(n: int, r: int)
    requires
        is_root(n, r),
    ensures
        root(n) == r,
{
    let s = root(n);
    assert(is_root(n, s));
    if s < r {
        lemma_square_order(s + 1, r);
    }
    if r < s {
        lemma_square_order(r + 1, s);
    }
}

/// For a non-negative bound `b`, the root of `n` lies below `b` exactly when
/// `n` lies below the square of `b`.
pub proof fn lemma_root_below(n: int, b: int)
    requires
        n >= 0,
        b >= 0,
    ensures
        root(n) < b <==> n < b * b,
{
    lemma_root_exists(n);
    let r = root(n);
    if r < b {
        lemma_square_order(r + 1, b);
    } else {
        lemma_square_order(b, r);
    }
}

/// The root grows with its argument.
pub proof fn lemma_root_order(m: int, n: int)
    requires
        0 <= m <= n,
    ensures
        root(m) <= root(n),
{
    lemma_root_exists(m);
    lemma_root_exists(n);
    if root(n) < root(m) {
        lemma_square_order(root(n) + 1, root(m));
    }
}

/// A quotient rounded toward zero lies between zero and the exact quotient:
/// multiplied back by the divisor it stays on the dividend's side of zero and
/// misses the dividend by less than one divisor.
pub proof fn lemma_quot_bounds(n: int, d: int)
    requires
        d > 0,
    ensures
        n >= 0 ==> 0 <= quot(n, d) * d <= n < (quot(n, d) + 1) * d,
        n <= 0 ==> (quot(n, d) - 1) * d < n <= quot(n, d) * d <= 0,
{
    if n >= 0 {
        vstd::arithmetic::div_mod::lemma_fundamental_div_mod(n, d);
        vstd::arithmetic::div_mod::lemma_mod_bound(n, d);
        let q = n / d;
        assert(q * d == d * q && (q + 1) * d == d * q + d && (q - 1) * d == d * q - d)
            by (nonlinear_arith);
        assert(q >= 0) by (nonlinear_arith)
            requires
                d * q + (n % d) >= 0,
                n % d < d,
                d > 0,
        ;
    } else {
        vstd::arithmetic::div_mod::lemma_fundamental_div_mod(-n, d);
        vstd::arithmetic::div_mod::lemma_mod_bound(-n, d);
        let q = (-n) / d;
        assert((-q) * d == -(d * q) && (-q - 1) * d == -(d * q) - d) by (nonlinear_arith);
        assert(q >= 0) by (nonlinear_arith)
            requires
                d * q + ((-n) % d) >= 0,
                (-n) % d < d,
                d > 0,
        ;
    }
}

/// Clamps an exact result into the range of stored scalars.
pub fn saturate(v: i128) -> (r: i64)
    ensures
        r == clamp(v as int),
{
    if v < -(LIMIT as i128) {
        -LIMIT
    } else if v > LIMIT as i128 {
        LIMIT
    } else {
        v as i64
    }
}

/// The product of `v` and `num`, divided by a positive `den`, rounded toward
/// zero and clamped.
pub open spec fn scaled(v: int, num: int, den: int) -> int
    recommends
        den > 0,
{
    clamp(quot(v * num, den))
}

/// Computes `v * num / den` without intermediate overflow.
pub fn scale(v: i64, num: i64, den: i64) -> (r: i64)
    requires
        den > 0,
    ensures
        r == scaled(v as int, num as int, den as int),
{
    assert(-0x8000_0000_0000_0000 * 0x8000_0000_0000_0000 <= v * num
        <= 0x8000_0000_0000_0000 * 0x8000_0000_0000_0000) by (nonlinear_arith)
        requires
            -0x8000_0000_0000_0000 <= v <= 0x8000_0000_0000_0000,
            -0x8000_0000_0000_0000 <= num <= 0x8000_0000_0000_0000,
    ;
    let product: i128 = v as i128 * num as i128;
    saturate(product / den as i128)
}

/// The integer square root of `n`, rounded down, found by bisection.
pub fn integer_root(n: u128) -> (r: u64)
    ensures
        r == root(n as int),
{
    let mut lo: u128 = 0;
    let mut hi: u128 = 0x1_0000_0000_0000_0000;
    assert(0x1_0000_0000_0000_0000int * 0x1_0000_0000_0000_0000int > u128::MAX);
    while hi - lo > 1
        invariant
            lo < hi <= 0x1_0000_0000_0000_0000,
            lo * lo <= n < hi * hi,
        decreases hi - lo,
    {
        let mid: u128 = lo + (hi - lo) / 2;
        assert(mid * mid <= 0xffff_ffff_ffff_ffff * 0xffff_ffff_ffff_ffff) by (nonlinear_arith)
            requires
                0 <= mid <= 0xffff_ffff_ffff_ffff,
        ;
        assert(0xffff_ffff_ffff_ffffint * 0xffff_ffff_ffff_ffffint <= u128::MAX);
        if mid * mid <= n {
            lo = mid;
        } else {
            hi = mid;
        }
    }
    proof {
        lemma_root_unique(n as int, lo as int);
    }
    lo as u64
}

} // verus!
