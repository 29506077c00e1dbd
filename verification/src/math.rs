//! Small verified arithmetic helpers: the integer square root used for the
//! k-th-nearest-neighbour index.
use vstd::prelude::*;

verus! {

/// Truncating integer division (rounding towards zero), as the `/` operator
/// of the machine integer types computes it.
pub open spec fn trunc_div(x: int, d: int) -> int {
    if x == 0 {
        0
    } else if x > 0 && d > 0 {
        x / d
    } else if x < 0 && d < 0 {
        (x * -1) / (d * -1)
    } else if x < 0 {
        ((x * -1) / d) * -1
    } else {
        (x / (d * -1)) * -1
    }
}

/// The truncating quotient of a sum bounded by `d * m` lies within `m`.
pub proof fn lemma_trunc_div_bound(x: int, d: int, m: int)
    requires
        d >= 1,
        m >= 0,
        -(d * m) <= x <= d * m,
    ensures
        -m <= trunc_div(x, d) <= m,
{
    if x == 0 {
    } else if x > 0 {
        lemma_nonneg_div_le(x, d, m);
    } else {
        lemma_nonneg_div_le(x * -1, d, m);
    }
}

/// For non-negative `x` at most `d * m`, the Euclidean quotient `x / d` lies
/// between 0 and `m`.
pub proof fn lemma_nonneg_div_le(x: int, d: int, m: int)
    requires
        d >= 1,
        m >= 0,
        0 <= x <= d * m,
    ensures
        0 <= x / d <= m,
{
    vstd::arithmetic::div_mod::lemma_fundamental_div_mod(x, d);
    vstd::arithmetic::div_mod::lemma_mod_bound(x, d);
    let q = x / d;
    assert(0 <= q && q <= m) by (nonlinear_arith)
        requires
            x == d * q + x % d,
            0 <= x % d < d,
            0 <= x <= d * m,
            d >= 1,
            m >= 0,
    ;
}

/// The floor of the square root of `n`, defined by counting up.
pub open spec fn sqrt_floor(n: nat) -> nat
    decreases n,
{
    if n == 0 {
        0
    } else {
        let r = sqrt_floor((n - 1) as nat);
        if (r + 1) * (r + 1) <= n {
            (r + 1) as nat
        } else {
            r
        }
    }
}

/// `sqrt_floor(n)` is a floor square root: `r * r <= n < (r + 1) * (r + 1)`.
pub proof fn lemma_sqrt_floor_bracket(n: nat)
    ensures
        (sqrt_floor(n) as int) * (sqrt_floor(n) as int) <= n as int,
        (n as int) < (sqrt_floor(n) as int + 1) * (sqrt_floor(n) as int + 1),
        sqrt_floor(n) <= n,
    decreases n,
{
    if n == 0 {
        assert(sqrt_floor(0) == 0);
    } else {
        lemma_sqrt_floor_bracket((n - 1) as nat);
        let r = sqrt_floor((n - 1) as nat);
        if (r + 1) * (r + 1) <= n {
            let s = (r + 1) as nat;
            assert(sqrt_floor(n) == s);
            assert(n < (s + 1) * (s + 1)) by (nonlinear_arith)
                requires
                    (n - 1) < (r + 1) * (r + 1),
                    s == r + 1,
            ;
            assert(s <= n) by (nonlinear_arith)
                requires
                    s * s <= n,
            ;
        } else {
            assert(sqrt_floor(n) == r);
            assert(r * r <= n - 1 <= n);
        }
    }
}

/// Any `r` bracketing `n` as a floor square root equals `sqrt_floor(n)`.
pub proof fn lemma_sqrt_floor_unique(n: nat, r: nat)
    requires
        r * r <= n,
        n < (r + 1) * (r + 1),
    ensures
        r == sqrt_floor(n),
{
    lemma_sqrt_floor_bracket(n);
    let s = sqrt_floor(n);
    assert(r == s) by (nonlinear_arith)
        requires
            r * r <= n,
            n < (r + 1) * (r + 1),
            s * s <= n,
            n < (s + 1) * (s + 1),
    ;
}

/// The floor of the square root of `n`, computed by counting up.
pub fn isqrt(n: usize) -> (r: usize)
    ensures
        r as nat == sqrt_floor(n as nat),
        r <= n,
{
    let mut r: usize = 0;
    loop
        invariant
            r <= n,
            (r as int) * (r as int) <= n as int,
        decreases n - r,
    {
        assert(r < usize::MAX) by (nonlinear_arith)
            requires
                (r as int) * (r as int) <= n as int,
                n <= usize::MAX,
                usize::MAX >= 0xffff,
        ;
        let next = r + 1;
        assert((next as u128) * (next as u128) < u128::MAX) by (nonlinear_arith)
            requires
                next as int <= 0xffff_ffff_ffff_ffffu128 as int,
        ;
        let sq: u128 = (next as u128) * (next as u128);
        if sq <= n as u128 {
            assert(next <= n) by (nonlinear_arith)
                requires
                    (next as int) * (next as int) <= n as int,
                    next >= 1,
            ;
            r = next;
        } else {
            proof {
                lemma_sqrt_floor_unique(n as nat, r as nat);
            }
            break;
        }
    }
    r
}

} // verus!
