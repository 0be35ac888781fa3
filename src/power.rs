use crate::biguint::BigUint;
use crate::limbs::{
    base_pow, lemma_base_pow_positive, lemma_value_upto_ge_limb, limb_at, limb_base, value_upto,
};
use std::cmp::Ordering;
use vstd::prelude::*;

verus! {

/// `b` raised to the power `e`, with `pow_spec(0, 0) == 1`.
pub open spec fn pow_spec(b: nat, e: nat) -> nat
    decreases e,
{
    if e == 0 {
        1
    } else {
        b * pow_spec(b, (e - 1) as nat)
    }
}

/// Squaring the base halves the exponent: `(b * b)^k == b^(2k)`.
pub proof fn lemma_pow_square(b: nat, k: nat)
    ensures
        pow_spec(b * b, k) == pow_spec(b, 2 * k),
    decreases k,
{
    if k > 0 {
        lemma_pow_square(b, (k - 1) as nat);
        let rest = pow_spec(b, (2 * k - 2) as nat);
        assert(pow_spec(b, (2 * k - 1) as nat) == b * rest);
        assert((b * b) * rest == b * (b * rest)) by (nonlinear_arith);
    }
}

/// Zero and one keep their value under any positive power.
pub proof fn lemma_pow_of_zero_or_one(b: nat, e: nat)
    requires
        b <= 1,
        e >= 1,
    ensures
        pow_spec(b, e) == b,
    decreases e,
{
    if e > 1 {
        lemma_pow_of_zero_or_one(b, (e - 1) as nat);
        assert(b * b == b) by (nonlinear_arith)
            requires
                b <= 1,
        ;
    } else {
        assert(pow_spec(b, 0) == 1);
        assert(b * 1 == b);
    }
}

/// The error text for `0^0`.
pub open spec fn zero_to_zero_message() -> Seq<char> {
    "Zero to the power of zero is undefined"@
}

/// The error text for an exponent that does not fit in one limb.
pub open spec fn exponent_too_large_message() -> Seq<char> {
    "Exponent too large"@
}

impl BigUint {
    /// Whether the value fits in a single limb, that is, every limb above the
    /// lowest is zero.
    pub fn fits_in_limb(&self) -> (r: bool)
        requires
            self.wf(),
        ensures
            r == (self@ < limb_base()),
            r ==> self@ == self.limb(0),
    {
        let ghost s = self.value@;
        proof {
            assert(base_pow(0) == 1);
            assert(value_upto(s, 1) == value_upto(s, 0) + limb_at(s, 0) * 1);
        }
        let mut i: usize = 1;
        while i < self.value.len()
            invariant
                1 <= i <= self.value.len(),
                s == self.value@,
                value_upto(s, i as nat) == limb_at(s, 0),
            decreases self.value.len() - i,
        {
            if self.value[i] != 0 {
                proof {
                    lemma_value_upto_ge_limb(s, i as nat, s.len() as nat);
                    lemma_base_pow_positive((i - 1) as nat);
                    let l = limb_at(s, i as int);
                    let p = base_pow((i - 1) as nat);
                    assert(l * (limb_base() * p) >= limb_base()) by (nonlinear_arith)
                        requires
                            l >= 1,
                            p >= 1,
                    ;
                }
                return false;
            }
            proof {
                assert(value_upto(s, (i + 1) as nat) == value_upto(s, i as nat) + 0 * base_pow(
                    i as nat,
                ));
            }
            i += 1;
        }
        true
    }

    /// `self` raised to `exponent`, by square-and-multiply over the bits of the
    /// exponent; `self^0 == 1`. A base of zero or one is its own power. For a
    /// larger base the result, as built, has at most
    /// `1 + exponent * (limbs of self)` limbs, a count that must fit in `usize`.
    pub fn pow_internal(&self, exponent: u64) -> (r: BigUint)
        requires
            self.wf(),
            self@ <= 1 || 1 + exponent * self.value.len() <= usize::MAX,
        ensures
            r.wf(),
            r@ == pow_spec(self@, exponent as nat),
    {
        if exponent == 0 {
            return BigUint::from(1);
        }
        if let Ordering::Greater = self.cmp(&BigUint::from(1)) {
        } else {
            proof {
                lemma_pow_of_zero_or_one(self@, exponent as nat);
            }
            return self.copy();
        }
        let mut result = BigUint::from(1);
        let mut base = self.copy();
        let mut e = exponent;
        while e > 0
            invariant
                result.wf(),
                base.wf(),
                result@ * pow_spec(base@, e as nat) == pow_spec(self@, exponent as nat),
                result.value.len() + e * base.value.len() <= 1 + exponent * self.value.len(),
                1 + exponent * self.value.len() <= usize::MAX,
            decreases e,
        {
            let ghost r0 = result@;
            let ghost b0 = base@;
            let ghost rl = result.value.len();
            let ghost bl = base.value.len();
            let ghost e0 = e;
            let half = e / 2;
            let odd = e % 2 == 1;
            proof {
                lemma_pow_square(b0, half as nat);
                assert(pow_spec(b0, e as nat) == if odd {
                    b0 * pow_spec(b0, 2 * half as nat)
                } else {
                    pow_spec(b0, 2 * half as nat)
                });
                assert(rl + bl <= rl + e * bl) by (nonlinear_arith)
                    requires
                        e >= 1,
                ;
            }
            if odd {
                result = result.mul(&base);
            }
            e = half;
            proof {
                let rl1 = result.value.len() as int;
                assert(rl1 + 2 * half * bl <= rl + e0 * bl) by (nonlinear_arith)
                    requires
                        odd ==> rl1 <= rl + bl,
                        !odd ==> rl1 == rl,
                        e0 == 2 * half + (if odd {
                            1int
                        } else {
                            0
                        }),
                ;
                assert(half * (2 * bl) == 2 * half * bl) by (nonlinear_arith);
            }
            if e > 0 {
                proof {
                    assert(2 * bl <= 2 * half * bl) by (nonlinear_arith)
                        requires
                            half >= 1,
                    ;
                }
                base = base.mul(&base);
                proof {
                    assert(half * base.value.len() <= half * (2 * bl)) by (nonlinear_arith)
                        requires
                            base.value.len() <= 2 * bl,
                    ;
                }
            }
            proof {
                let p = pow_spec(b0 * b0, half as nat);
                if odd {
                    assert(r0 * (b0 * p) == (r0 * b0) * p) by (nonlinear_arith);
                }
                if e == 0 {
                    assert(pow_spec(base@, 0) == 1);
                    assert(p == 1);
                }
            }
        }
        proof {
            assert(pow_spec(base@, 0) == 1);
            assert(result@ * 1 == result@);
        }
        result
    }

    /// `a` raised to the power `b`.
    ///
    /// Fails with an error text when both are zero, and when `b` does not fit in
    /// one limb. For a base above one and an exponent that fits, the limb count
    /// bound of `pow_internal` must fit in `usize`.
    pub fn pow(a: BigUint, b: BigUint) -> (r: Result<BigUint, String>)
        requires
            a.wf(),
            b.wf(),
            b@ < limb_base() && a@ > 1 ==> 1 + b@ * a.value.len() <= usize::MAX,
        ensures
            match r {
                Ok(x) => !(a@ == 0 && b@ == 0) && b@ < limb_base() && x.wf() && x@ == pow_spec(
                    a@,
                    b@,
                ),
                Err(msg) => (a@ == 0 && b@ == 0 && msg@ == zero_to_zero_message()) || (b@
                    >= limb_base() && msg@ == exponent_too_large_message()),
            },
    {
        if a.is_zero() && b.is_zero() {
            return Err("Zero to the power of zero is undefined".to_owned());
        }
        if b.is_zero() {
            return Ok(BigUint::from(1));
        }
        if !b.fits_in_limb() {
            return Err("Exponent too large".to_owned());
        }
        Ok(a.pow_internal(b.get(0)))
    }
}

} // verus!
