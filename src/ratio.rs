use vstd::arithmetic::div_mod::{lemma_fundamental_div_mod, lemma_mod_bound};
use vstd::prelude::*;

verus! {

/// An exact non-negative fraction `num / den`.
#[derive(Clone, Copy, Debug, PartialEq, Eq, Structural)]
pub struct Ratio {
    pub num: u128,
    pub den: u128,
}

impl Ratio {
    /// A fraction is a number only when its denominator is not zero.
    pub open spec fn valid(self) -> bool {
        self.den > 0
    }

    /// The fraction lies in `[0, 1]`.
    pub open spec fn in_unit(self) -> bool {
        self.den > 0 && self.num <= self.den
    }

    /// `self` is strictly greater than `other` as a rational number.
    pub open spec fn greater(self, other: Ratio) -> bool {
        self.num * other.den > other.num * self.den
    }

    /// Compares two fractions by value without multiplying them out, so that
    /// no intermediate product can overflow.
    pub fn exceeds(&self, other: &Ratio) -> (r: bool)
        requires
            self.valid(),
            other.valid(),
        ensures
            r == self.greater(*other),
    {
        frac_gt(self.num, self.den, other.num, other.den)
    }
}

/// Whether `p / q > r / s`, by comparing integer parts and then, where they
/// agree, the reciprocals of the remainders (the Euclidean expansion).
fn frac_gt(p: u128, q: u128, r: u128, s: u128) -> (res: bool)
    requires
        q > 0,
        s > 0,
    ensures
        res == (p * s > r * q),
    decreases q + s,
{
    let a = p / q;
    let b = r / s;
    let p2 = p % q;
    let r2 = r % s;
    proof {
        lemma_fundamental_div_mod(p as int, q as int);
        lemma_fundamental_div_mod(r as int, s as int);
        lemma_mod_bound(p as int, q as int);
        lemma_mod_bound(r as int, s as int);
    }
    if a != b {
        proof {
            lemma_cross_by_quotients(p as int, q as int, a as int, p2 as int, r as int, s as int, b as int, r2 as int);
        }
        a > b
    } else if p2 == 0 {
        proof {
            assert(p * s - r * q == p2 * s - r2 * q) by (nonlinear_arith)
                requires p == a * q + p2, r == b * s + r2, a == b;
            assert(r2 * q >= 0) by (nonlinear_arith)
                requires r2 >= 0, q > 0;
        }
        false
    } else if r2 == 0 {
        proof {
            assert(p * s - r * q == p2 * s - r2 * q) by (nonlinear_arith)
                requires p == a * q + p2, r == b * s + r2, a == b;
            assert(p2 * s > 0) by (nonlinear_arith)
                requires p2 > 0, s > 0;
        }
        true
    } else {
        let res = frac_gt(s, r2, q, p2);
        proof {
            assert(p * s - r * q == p2 * s - r2 * q) by (nonlinear_arith)
                requires p == a * q + p2, r == b * s + r2, a == b;
            assert(s * p2 == p2 * s && q * r2 == r2 * q) by (nonlinear_arith);
        }
        res
    }
}

/// Where the integer parts of two fractions differ, they decide the order.
proof fn lemma_cross_by_quotients(p: int, q: int, a: int, p2: int, r: int, s: int, b: int, r2: int)
    requires
        q > 0,
        s > 0,
        p == a * q + p2,
        r == b * s + r2,
        0 <= p2 < q,
        0 <= r2 < s,
        a >= 0,
        b >= 0,
        a != b,
    ensures
        (p * s > r * q) == (a > b),
{
    if a > b {
        assert(p * s > r * q) by (nonlinear_arith)
            requires
                q > 0, s > 0, p == a * q + p2, r == b * s + r2, 0 <= p2, r2 < s, a >= b + 1;
    } else {
        assert(p * s < r * q) by (nonlinear_arith)
            requires
                q > 0, s > 0, p == a * q + p2, r == b * s + r2, p2 < q, 0 <= r2, b >= a + 1;
    }
}

} // verus!
