use vstd::arithmetic::div_mod::{
    lemma_div_is_ordered, lemma_div_multiples_vanish, lemma_fundamental_div_mod,
    lemma_fundamental_div_mod_converse_div,
};
use vstd::prelude::*;

verus! {

/// Bound on the magnitude of a numerator handed to `floor_div`.
pub const MAX_NUMERATOR: i128 = 0x1000_0000_0000_0000_0000_0000_0000;

/// Rounds `num / den` towards negative infinity.
pub fn floor_div(num: i128, den: i128) -> (r: i128)
    requires
        den > 0,
        -MAX_NUMERATOR <= num <= MAX_NUMERATOR,
        den <= MAX_NUMERATOR,
    ensures
        r == num / den,
{
    if num >= 0 {
        ((num as u128) / (den as u128)) as i128
    } else {
        let x: u128 = (-num) as u128;
        let q: u128 = (x + den as u128 - 1) / (den as u128);
        proof {
            let qq = num / den;
            let rr = num % den;
            lemma_fundamental_div_mod(num as int, den as int);
            assert(x + den - 1 == (-qq) * den + (den - 1 - rr)) by (nonlinear_arith)
                requires
                    num == den * qq + rr,
                    x == -num,
            ;
            lemma_fundamental_div_mod_converse_div(x + den - 1, den as int, -qq, den - 1 - rr);
            assert(-qq <= x) by (nonlinear_arith)
                requires
                    num == den * qq + rr,
                    0 <= rr < den,
                    num < 0,
                    x == -num,
            ;
        }
        -(q as i128)
    }
}

/// `a + (b - a) * e / t`, rounded down, lies between `a` and `b` when `0 <= e <= t`.
pub proof fn lemma_lerp_between(a: int, b: int, e: int, t: int)
    requires
        0 <= e <= t,
        0 < t,
    ensures
        a <= b ==> a <= a + (b - a) * e / t <= b,
        b <= a ==> b <= a + (b - a) * e / t <= a,
        e == 0 ==> a + (b - a) * e / t == a,
        e == t ==> a + (b - a) * e / t == b,
{
    let d = b - a;
    if d >= 0 {
        assert(0 <= d * e <= d * t) by (nonlinear_arith)
            requires
                d >= 0,
                0 <= e <= t,
        ;
        lemma_div_is_ordered(0, d * e, t);
        lemma_div_is_ordered(d * e, d * t, t);
    } else {
        assert(d * t <= d * e <= 0) by (nonlinear_arith)
            requires
                d < 0,
                0 <= e <= t,
        ;
        lemma_div_is_ordered(d * e, 0, t);
        lemma_div_is_ordered(d * t, d * e, t);
    }
    assert(d * t == t * d) by (nonlinear_arith);
    lemma_div_multiples_vanish(d, t);
    assert(d * 0 == 0);
}

} // verus!
