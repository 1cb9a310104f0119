//! Division that rounds up.
use vstd::prelude::*;

verus! {

/// `a` divided by `b`, rounded up.
pub open spec fn ceil_div(a: int, b: int) -> int {
    (a + b - 1) / b
}

/// `ceil_div(a, b)` is the least number of pieces of size `b` that hold `a`.
pub proof fn lemma_ceil_div(a: int, b: int)
    requires
        a >= 0,
        b > 0,
    ensures
        0 <= ceil_div(a, b) <= a,
        a <= ceil_div(a, b) * b < a + b,
        ceil_div(a, b) == 0 <==> a == 0,
        ceil_div(a, b) == a / b + (if a % b == 0 { 0int } else { 1 }),
        forall|i: int| 0 <= i < ceil_div(a, b) <==> 0 <= i && #[trigger] (i * b) < a,
{
    let c = ceil_div(a, b);
    let q = a / b;
    let r = a % b;
    vstd::arithmetic::div_mod::lemma_fundamental_div_mod(a, b);
    vstd::arithmetic::div_mod::lemma_fundamental_div_mod(a + b - 1, b);
    let r2 = (a + b - 1) % b;
    assert(a <= c * b < a + b) by (nonlinear_arith)
        requires
            b > 0,
            a + b - 1 == b * c + r2,
            0 <= r2 < b,
    ;
    assert(c == q + (if r == 0 { 0int } else { 1 })) by (nonlinear_arith)
        requires
            b > 0,
            a == b * q + r,
            0 <= r < b,
            a <= c * b < a + b,
    ;
    assert(0 <= c <= a) by (nonlinear_arith)
        requires
            b > 0,
            a >= 0,
            a <= c * b < a + b,
    ;
    assert(c == 0 <==> a == 0) by (nonlinear_arith)
        requires
            b > 0,
            a >= 0,
            a <= c * b < a + b,
    ;
    assert forall|i: int| 0 <= i < c <==> 0 <= i && #[trigger] (i * b) < a by {
        if 0 <= i < c {
            assert(i * b < a) by (nonlinear_arith)
                requires
                    i + 1 <= c,
                    b > 0,
                    c * b < a + b,
            ;
        }
        if i >= c {
            assert(i * b >= a) by (nonlinear_arith)
                requires
                    i >= c,
                    b > 0,
                    a <= c * b,
            ;
        }
    }
}

/// `a` divided by `b`, rounded up.
pub fn div_ceil(a: usize, b: usize) -> (r: usize)
    requires
        b > 0,
    ensures
        r == ceil_div(a as int, b as int),
{
    proof {
        lemma_ceil_div(a as int, b as int);
    }
    if a % b == 0 {
        a / b
    } else {
        a / b + 1
    }
}

} // verus!
