use crate::biguint::BigUint;
use std::cmp::Ordering;
use vstd::arithmetic::div_mod::{
    lemma_div_multiples_vanish, lemma_fundamental_div_mod, lemma_fundamental_div_mod_converse,
    lemma_mod_multiples_basic,
};
use vstd::prelude::*;

verus! {

/// 2 to the power `k`.
pub open spec fn two_pow(k: nat) -> nat
    decreases k,
{
    if k == 0 {
        1
    } else {
        2 * two_pow((k - 1) as nat)
    }
}

proof fn lemma_two_pow_positive(k: nat)
    ensures
        two_pow(k) >= 1,
    decreases k,
{
    if k > 0 {
        lemma_two_pow_positive((k - 1) as nat);
    }
}

/// The greatest common divisor, by Euclid's algorithm: `gcd(a, 0) == a`.
pub open spec fn gcd_spec(a: nat, b: nat) -> nat
    decreases b,
{
    if b == 0 {
        a
    } else {
        gcd_spec(b, a % b)
    }
}

/// The least common multiple `a * b / gcd(a, b)`, for `a` and `b` not both zero.
pub open spec fn lcm_spec(a: nat, b: nat) -> nat {
    a * b / gcd_spec(a, b)
}

/// The greatest common divisor divides both arguments, and is zero only when
/// both are.
pub proof fn lemma_gcd_divides(a: nat, b: nat)
    ensures
        gcd_spec(a, b) == 0 <==> (a == 0 && b == 0),
        gcd_spec(a, b) > 0 ==> a % gcd_spec(a, b) == 0 && b % gcd_spec(a, b) == 0,
    decreases b,
{
    if b == 0 {
        if a > 0 {
            lemma_mod_multiples_basic(1, a as int);
        }
    } else {
        let r = a % b;
        lemma_gcd_divides(b, r);
        let g = gcd_spec(b, r) as int;
        assert(g > 0);
        lemma_fundamental_div_mod(a as int, b as int);
        lemma_fundamental_div_mod(b as int, g);
        lemma_fundamental_div_mod(r as int, g);
        let q = (a / b) as int;
        let m = b as int / g;
        let n = r as int / g;
        assert(a as int == (m * q + n) * g) by (nonlinear_arith)
            requires
                a as int == b as int * q + r as int,
                b as int == g * m,
                r as int == g * n,
        ;
        lemma_mod_multiples_basic(m * q + n, g);
    }
}

/// Every common divisor of `a` and `b` divides their greatest common divisor.
pub proof fn lemma_common_divisor_divides_gcd(a: nat, b: nat, d: nat)
    requires
        d > 0,
        a % d == 0,
        b % d == 0,
    ensures
        gcd_spec(a, b) % d == 0,
    decreases b,
{
    if b > 0 {
        let di = d as int;
        lemma_fundamental_div_mod(a as int, b as int);
        lemma_fundamental_div_mod(a as int, di);
        lemma_fundamental_div_mod(b as int, di);
        let q = (a / b) as int;
        let m = a as int / di;
        let n = b as int / di;
        assert((a % b) as int == (m - n * q) * di) by (nonlinear_arith)
            requires
                a as int == b as int * q + (a % b) as int,
                a as int == di * m,
                b as int == di * n,
        ;
        lemma_mod_multiples_basic(m - n * q, di);
        lemma_common_divisor_divides_gcd(b, a % b, d);
    }
}

/// The least common multiple times the greatest common divisor is the product.
pub proof fn lemma_lcm_times_gcd(a: nat, b: nat)
    requires
        !(a == 0 && b == 0),
    ensures
        lcm_spec(a, b) * gcd_spec(a, b) == a * b,
{
    lemma_gcd_divides(a, b);
    let g = gcd_spec(a, b) as int;
    lemma_fundamental_div_mod(a as int, g);
    let m = a as int / g;
    assert(a * b == g * (m * b)) by (nonlinear_arith)
        requires
            a as int == g * m,
    ;
    lemma_div_multiples_vanish(m * b, g);
    assert((m * b) * g == g * (m * b)) by (nonlinear_arith);
}

impl BigUint {
    /// Quotient and remainder of `self` by a nonzero `other`.
    ///
    /// Past the quick cases (divisor one, dividend zero, dividend below or equal
    /// to the divisor), a long division that searches, from the previous step,
    /// for the largest power-of-two multiple of the divisor that still fits in
    /// what remains, and takes it away.
    pub fn divmod(&self, other: &BigUint) -> (r: (BigUint, BigUint))
        requires
            self.wf(),
            other.wf(),
            other@ != 0,
        ensures
            r.0.wf(),
            r.1.wf(),
            r.0@ == self@ / other@,
            r.1@ == self@ % other@,
            r.0@ * other@ + r.1@ == self@,
            r.1@ < other@,
    {
        if let Ordering::Equal = other.cmp(&BigUint::from(1)) {
            proof {
                lemma_fundamental_div_mod_converse(self@ as int, other@ as int, self@ as int, 0);
            }
            return (self.copy(), BigUint::from(0));
        }
        if self.is_zero() {
            proof {
                lemma_fundamental_div_mod_converse(self@ as int, other@ as int, 0, 0);
            }
            return (BigUint::from(0), BigUint::from(0));
        }
        match self.cmp(other) {
            Ordering::Less => {
                proof {
                    lemma_fundamental_div_mod_converse(self@ as int, other@ as int, 0, self@ as int);
                }
                return (BigUint::from(0), self.copy());
            },
            Ordering::Equal => {
                proof {
                    lemma_fundamental_div_mod_converse(self@ as int, other@ as int, 1, 0);
                }
                return (BigUint::from(1), BigUint::from(0));
            },
            Ordering::Greater => {},
        }
        let mut remaining = self.copy();
        let mut quotient = BigUint::from(0);
        let mut step = BigUint::from(1);
        let mut step_times_other = other.copy();
        let ghost mut k: nat = 0;
        proof {
            assert(step_times_other@ == step@ * other@) by (nonlinear_arith)
                requires
                    step_times_other@ == other@,
                    step@ == 1,
            ;
        }
        while remaining >= *other
            invariant
                remaining.wf(),
                quotient.wf(),
                step.wf(),
                step_times_other.wf(),
                other@ >= 1,
                quotient@ * other@ + remaining@ == self@,
                step_times_other@ == step@ * other@,
                step@ == two_pow(k),
            decreases remaining@,
        {
            proof {
                lemma_two_pow_positive(k);
                assert(step_times_other@ >= 1) by (nonlinear_arith)
                    requires
                        step_times_other@ == step@ * other@,
                        step@ >= 1,
                        other@ >= 1,
                ;
            }
            while step_times_other < remaining
                invariant
                    step.wf(),
                    step_times_other.wf(),
                    other@ >= 1,
                    step_times_other@ == step@ * other@,
                    step@ == two_pow(k),
                    step_times_other@ >= 1,
                decreases if step_times_other@ < remaining@ {
                    remaining@ - step_times_other@
                } else {
                    0
                },
            {
                assert(step_times_other@ < remaining@);
                let ghost old_step = step@;
                let ghost old_prod = step_times_other@;
                step.lshift();
                step_times_other.lshift();
                proof {
                    k = k + 1;
                    assert(step_times_other@ == step@ * other@) by (nonlinear_arith)
                        requires
                            step_times_other@ == 2 * old_prod,
                            step@ == 2 * old_step,
                            old_prod == old_step * other@,
                    ;
                }
            }
            while step_times_other > remaining
                invariant
                    step.wf(),
                    step_times_other.wf(),
                    other@ >= 1,
                    remaining@ >= other@,
                    step_times_other@ == step@ * other@,
                    step@ == two_pow(k),
                decreases step_times_other@,
            {
                proof {
                    assert(step_times_other@ > remaining@);
                    if k == 0 {
                        assert(step@ == 1);
                        assert(step_times_other@ == other@) by (nonlinear_arith)
                            requires
                                step_times_other@ == step@ * other@,
                                step@ == 1,
                        ;
                    }
                    assert(k >= 1);
                    lemma_two_pow_positive((k - 1) as nat);
                    let half = two_pow((k - 1) as nat);
                    assert(step_times_other@ == 2 * (half * other@)) by (nonlinear_arith)
                        requires
                            step_times_other@ == step@ * other@,
                            step@ == 2 * half,
                    ;
                }
                step.rshift();
                step_times_other.rshift();
                proof {
                    k = (k - 1) as nat;
                }
            }
            proof {
                lemma_two_pow_positive(k);
                assert(step_times_other@ >= 1) by (nonlinear_arith)
                    requires
                        step_times_other@ == step@ * other@,
                        step@ >= 1,
                        other@ >= 1,
                ;
            }
            remaining = remaining.sub(&step_times_other);
            quotient.add_assign(&step);
            proof {
                assert(quotient@ * other@ == (quotient@ - step@) * other@ + step@ * other@)
                    by (nonlinear_arith);
            }
        }
        proof {
            lemma_fundamental_div_mod_converse(
                self@ as int,
                other@ as int,
                quotient@ as int,
                remaining@ as int,
            );
        }
        (quotient, remaining)
    }

    /// The quotient `self / other`, rounded down; `other` must be nonzero.
    pub fn div(&self, other: &BigUint) -> (r: BigUint)
        requires
            self.wf(),
            other.wf(),
            other@ != 0,
        ensures
            r.wf(),
            r@ == self@ / other@,
    {
        self.divmod(other).0
    }

    /// The remainder `self % other`; `other` must be nonzero.
    pub fn rem(&self, other: &BigUint) -> (r: BigUint)
        requires
            self.wf(),
            other.wf(),
            other@ != 0,
        ensures
            r.wf(),
            r@ == self@ % other@,
    {
        self.divmod(other).1
    }

    /// The greatest common divisor, by Euclid's algorithm; `gcd(a, 0) == a`.
    pub fn gcd(a: BigUint, b: BigUint) -> (r: BigUint)
        requires
            a.wf(),
            b.wf(),
        ensures
            r.wf(),
            r@ == gcd_spec(a@, b@),
    {
        let mut a = a;
        let mut b = b;
        let ghost g = gcd_spec(a@, b@);
        while !b.is_zero()
            invariant
                a.wf(),
                b.wf(),
                gcd_spec(a@, b@) == g,
            decreases b@,
        {
            let r = a.rem(&b);
            a = b;
            b = r;
        }
        a
    }

    /// The least common multiple `a * b / gcd(a, b)`; `a` and `b` must not both
    /// be zero (the division would be by zero), and the product's limb count
    /// must fit in `usize`.
    pub fn lcm(a: BigUint, b: BigUint) -> (r: BigUint)
        requires
            a.wf(),
            b.wf(),
            !(a@ == 0 && b@ == 0),
            a.value.len() + b.value.len() <= usize::MAX,
        ensures
            r.wf(),
            r@ == lcm_spec(a@, b@),
    {
        let product = a.mul(&b);
        proof {
            lemma_gcd_divides(a@, b@);
        }
        let g = BigUint::gcd(a, b);
        product.div(&g)
    }
}

} // verus!
