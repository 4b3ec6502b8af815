//! Exact integer roots and floor division, the building blocks of the fixed-point color math.
use vstd::prelude::*;
use vstd::arithmetic::div_mod::{lemma_fundamental_div_mod, lemma_fundamental_div_mod_converse};

verus! {

/// `r` is the integer cube root of `n`: the largest natural number whose cube is at most `n`.
pub open spec fn is_cube_root(n: int, r: int) -> bool {
    0 <= r && r * r * r <= n && n < (r + 1) * (r + 1) * (r + 1)
}

/// `r` is the integer square root of `n`.
pub open spec fn is_square_root(n: int, r: int) -> bool {
    0 <= r && r * r <= n && n < (r + 1) * (r + 1)
}

/// The integer cube root of a natural number, and minus that of its absolute value below zero.
pub open spec fn cbrt(n: int) -> int {
    if n >= 0 {
        cbrt_nat(n)
    } else {
        -cbrt_nat(-n)
    }
}

/// The integer cube root of a natural number.
pub open spec fn cbrt_nat(n: int) -> int {
    choose|r: int| #[trigger] is_cube_root(n, r)
}

pub proof fn lemma_cube_monotone(a: int, b: int)
    requires
        0 <= a <= b,
    ensures
        a * a * a <= b * b * b,
{
    assert(a * a <= b * b) by (nonlinear_arith)
        requires
            0 <= a <= b,
    ;
    assert(a * a * a <= b * b * b) by (nonlinear_arith)
        requires
            0 <= a <= b,
            a * a <= b * b,
            0 <= a * a,
    ;
}

pub proof fn lemma_cube_root_unique(n: int, r1: int, r2: int)
    requires
        is_cube_root(n, r1),
        is_cube_root(n, r2),
    ensures
        r1 == r2,
{
    if r1 < r2 {
        lemma_cube_monotone(r1 + 1, r2);
    } else if r2 < r1 {
        lemma_cube_monotone(r2 + 1, r1);
    }
}

pub proof fn lemma_cbrt_of_root(n: int, r: int)
    requires
        is_cube_root(n, r),
    ensures
        cbrt(n) == r,
{
    let c = cbrt_nat(n);
    lemma_cube_root_unique(n, c, r);
}

/// The integer cube root of `n`.
pub fn cube_root(n: u64) -> (r: u64)
    ensures
        is_cube_root(n as int, r as int),
        cbrt(n as int) == r,
{
    let mut lo: u64 = 0;
    let mut hi: u64 = 1u64 << 22;
    assert((1u64 << 22) == 4194304) by (bit_vector);
    assert(4194304int * 4194304 * 4194304 == 73786976294838206464int) by (nonlinear_arith);
    while hi - lo > 1
        invariant
            lo < hi <= 4194304,
            lo * lo * lo <= n,
            (n as int) < (hi as int) * hi * hi,
        decreases hi - lo,
    {
        let mid: u64 = lo + (hi - lo) / 2;
        let m = mid as u128;
        assert(m * m <= 4194304u128 * 4194304) by (nonlinear_arith)
            requires
                m <= 4194304,
        ;
        assert(m * m * m <= 4194304u128 * 4194304 * 4194304) by {
            lemma_cube_monotone(m as int, 4194304);
        }
        if m * m * m <= n as u128 {
            lo = mid;
        } else {
            hi = mid;
        }
    }
    proof {
        lemma_cbrt_of_root(n as int, lo as int);
    }
    lo
}

/// The integer square root of `n`.
pub fn square_root(n: u64) -> (r: u64)
    ensures
        is_square_root(n as int, r as int),
        sqrt_nat(n as int) == r,
{
    let mut lo: u64 = 0;
    let mut hi: u64 = 1u64 << 32;
    assert((1u64 << 32) == 4294967296) by (bit_vector);
    while hi - lo > 1
        invariant
            lo < hi <= 4294967296,
            lo * lo <= n,
            (n as int) < (hi as int) * hi,
        decreases hi - lo,
    {
        let mid: u64 = lo + (hi - lo) / 2;
        let m = mid as u128;
        assert(m * m <= 4294967296u128 * 4294967296) by (nonlinear_arith)
            requires
                m <= 4294967296,
        ;
        if m * m <= n as u128 {
            lo = mid;
        } else {
            hi = mid;
        }
    }
    proof {
        lemma_sqrt_of_root(n as int, lo as int);
    }
    lo
}

/// Floor division by a positive divisor, also for a negative dividend.
pub fn floor_div(n: i128, d: i128) -> (q: i128)
    requires
        0 < d <= 0x1000_0000_0000_0000_0000_0000_0000,
        -0x1000_0000_0000_0000_0000_0000_0000 <= n <= 0x1000_0000_0000_0000_0000_0000_0000,
    ensures
        q == n / d,
{
    if n >= 0 {
        n / d
    } else {
        let m: i128 = -n;
        let q: i128 = (m + d - 1) / d;
        proof {
            let q0 = n / d;
            let r0 = n % d;
            lemma_fundamental_div_mod(n as int, d as int);
            assert(m + d - 1 == (-q0) * d + (d - 1 - r0)) by (nonlinear_arith)
                requires
                    n == d * q0 + r0,
                    m == -n,
            ;
            lemma_fundamental_div_mod_converse((m + d - 1) as int, d as int, -q0, d - 1 - r0);
        }
        -q
    }
}

} // verus!

verus! {

/// The integer square root of a natural number.
pub open spec fn sqrt_nat(n: int) -> int {
    choose|r: int| #[trigger] is_square_root(n, r)
}

pub proof fn lemma_square_root_unique(n: int, r1: int, r2: int)
    requires
        is_square_root(n, r1),
        is_square_root(n, r2),
    ensures
        r1 == r2,
{
    if r1 < r2 {
        assert((r1 + 1) * (r1 + 1) <= r2 * r2) by (nonlinear_arith) requires 0 <= r1 + 1 <= r2;
    } else if r2 < r1 {
        assert((r2 + 1) * (r2 + 1) <= r1 * r1) by (nonlinear_arith) requires 0 <= r2 + 1 <= r1;
    }
}

pub proof fn lemma_sqrt_of_root(n: int, r: int)
    requires
        is_square_root(n, r),
    ensures
        sqrt_nat(n) == r,
{
    lemma_square_root_unique(n, sqrt_nat(n), r);
}

} // verus!
