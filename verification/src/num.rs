//! Small arithmetic.

use vstd::prelude::*;

verus! {

/// The truncated remainder of a negative number and the Euclidean one differ by the divisor.
proof fn lemma_negative_remainder(x: int, d: int)
    requires
        d > 0,
        x < 0,
    ensures
        (-x) % d != 0 ==> x % d == d - (-x) % d,
        (-x) % d == 0 ==> x % d == 0,
{
    let q = (-x) / d;
    let r = (-x) % d;
    vstd::arithmetic::div_mod::lemma_fundamental_div_mod(-x, d);
    vstd::arithmetic::div_mod::lemma_mod_bound(-x, d);
    if r != 0 {
        assert(x == (-q - 1) * d + (d - r)) by (nonlinear_arith)
            requires
                -x == d * q + r,
        ;
        vstd::arithmetic::div_mod::lemma_fundamental_div_mod_converse(x, d, -q - 1, d - r);
    } else {
        assert(x == (-q) * d + 0) by (nonlinear_arith)
            requires
                -x == d * q + r,
                r == 0,
        ;
        vstd::arithmetic::div_mod::lemma_fundamental_div_mod_converse(x, d, -q, 0);
    }
}

/// `x` wrapped round into 0..n.
pub fn wrap(x: i128, n: i128) -> (r: i128)
    requires
        n > 0,
    ensures
        r == x as int % n as int,
        0 <= r < n,
{
    proof {
        vstd::arithmetic::div_mod::lemma_mod_bound(x as int, n as int);
        if x < 0 {
            lemma_negative_remainder(x as int, n as int);
            vstd::arithmetic::div_mod::lemma_mod_bound(-(x as int), n as int);
        }
    }
    let m: i128 = x % n;
    if m < 0 {
        m + n
    } else {
        m
    }
}

/// So many thousandths of a length.
pub open spec fn part_of(n: int, permille: int) -> int {
    n * permille / 1000
}

/// So many thousandths of a length.
pub fn part(n: u32, permille: u32) -> (r: u32)
    requires
        permille <= 1000,
    ensures
        r == part_of(n as int, permille as int),
        r <= n,
{
    proof {
        assert(0 <= n * permille <= n * 1000) by (nonlinear_arith)
            requires
                0 <= permille <= 1000,
                0 <= n,
        ;
    }
    (n as u64 * permille as u64 / 1000) as u32
}

} // verus!
