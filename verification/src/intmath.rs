//! Floor division on machine integers, matching the mathematical `/` of
//! the specifications (Euclidean division, which floors for a positive
//! divisor).

use vstd::prelude::*;
use vstd::arithmetic::div_mod::{lemma_fundamental_div_mod, lemma_mod_bound};

verus! {

/// Magnitude cap for numerators handed to `floor_div`; generous enough
/// for every product the geometry forms.
pub const FLOOR_DIV_NUM_LIMIT: i64 = 4_000_000_000_000_000_000;

/// Divisor cap for `floor_div`.
pub const FLOOR_DIV_DEN_LIMIT: i64 = 100_000_000_000;

/// Floor division of a possibly negative numerator by a positive divisor:
/// exactly the `/` of the specification language.
pub fn floor_div(num: i64, den: i64) -> (q: i64)
    requires
        -FLOOR_DIV_NUM_LIMIT <= num <= FLOOR_DIV_NUM_LIMIT,
        0 < den <= FLOOR_DIV_DEN_LIMIT,
    ensures
        q == num as int / den as int,
{
    if num >= 0 {
        num / den
    } else {
        let m = -num;
        let q0 = (m + den - 1) / den;
        proof {
            lemma_neg_div(m as int, den as int);
        }
        -q0
    }
}

/// For a positive divisor, dividing a negated non-negative value floors:
/// `(-m) / d == -ceil(m / d)`.
proof fn lemma_neg_div(m: int, d: int)
    requires
        m >= 0,
        d > 0,
    ensures
        (-m) / d == -((m + d - 1) / d),
{
    let q = (m + d - 1) / d;
    lemma_fundamental_div_mod(m + d - 1, d);
    lemma_mod_bound(m + d - 1, d);
    // q * d <= m + d - 1 and m + d - 1 < q * d + d, hence
    // q * d - d < m <= q * d.
    let q2 = (-m) / d;
    lemma_fundamental_div_mod(-m, d);
    lemma_mod_bound(-m, d);
    // -m == d * q2 + r2 with 0 <= r2 < d.
    let r2 = (-m) % d;
    assert(d * q2 == -m - r2);
    assert(q * d - d < m <= q * d);
    assert(d * (q2 + q) == q * d - m - r2) by (nonlinear_arith)
        requires
            d * q2 == -m - r2,
    ;
    assert(-d < d * (q2 + q) < d);
    assert(q2 + q == 0) by (nonlinear_arith)
        requires
            -d < d * (q2 + q) < d,
            d > 0,
    ;
}

} // verus!
