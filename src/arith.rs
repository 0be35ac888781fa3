use crate::biguint::BigUint;
use crate::limbs::{
    base_pow, lemma_accumulate_step, lemma_base_pow_positive, lemma_shifted_upto_step,
    lemma_subtract_step, lemma_value_upto_bound, lemma_value_upto_ext, lemma_value_upto_padding,
    limb_at, shifted_upto, value_upto,
};
use std::cmp::Ordering;
use vstd::prelude::*;

verus! {

/// 2^64, the radix of one limb.
const LIMB_RADIX: u128 = 0x1_0000_0000_0000_0000;

impl BigUint {
    /// Computes `self += (other * mul_digit) << (64 * shift)`, one limb at a time
    /// with a 128-bit limb sum and a carry.
    pub fn add_assign_internal(&mut self, other: &BigUint, mul_digit: u64, shift: usize)
        requires
            other.value.len() + shift <= usize::MAX,
        ensures
            final(self)@ == old(self)@ + other@ * mul_digit * base_pow(shift as nat),
            final(self).value.len() >= old(self).value.len(),
            final(self).value.len() >= other.value.len() + shift,
            final(self).value.len() <= old(self).value.len() + 1
                || final(self).value.len() <= other.value.len() + shift + 1,
    {
        let ghost old_s = self.value@;
        let ghost o = other.value@;
        let n: usize = if self.value.len() >= other.value.len() + shift {
            self.value.len()
        } else {
            other.value.len() + shift
        };
        let mut carry: u64 = 0;
        let mut i: usize = 0;
        proof {
            assert(value_upto(old_s, 0) == 0);
            assert(base_pow(shift as nat) * 0 == 0);
            assert(shifted_upto(o, shift as nat, 0) == 0);
            assert(mul_digit * 0 == 0);
        }
        while i < n
            invariant
                n >= old_s.len(),
                n >= o.len() + shift,
                n == old_s.len() || n == o.len() + shift,
                i <= n,
                o == other.value@,
                self.value.len() == if i <= old_s.len() {
                    old_s.len() as int
                } else {
                    i as int
                },
                forall|j: int| i <= j ==> limb_at(self.value@, j) == limb_at(old_s, j),
                value_upto(self.value@, i as nat) + carry * base_pow(i as nat) == value_upto(
                    old_s,
                    i as nat,
                ) + mul_digit * shifted_upto(o, shift as nat, i as nat),
            decreases n - i,
        {
            let a = self.get(i);
            let b = if i >= shift {
                other.get(i - shift)
            } else {
                0
            };
            assert(b as u128 * mul_digit as u128 <= 0xFFFF_FFFF_FFFF_FFFF * 0xFFFF_FFFF_FFFF_FFFFu128)
                by (nonlinear_arith);
            let sum: u128 = a as u128 + (b as u128 * mul_digit as u128) + carry as u128;
            let ghost prev = self.value@;
            self.set(i, (sum % LIMB_RADIX) as u64);
            proof {
                lemma_value_upto_ext(self.value@, prev, i as nat);
                lemma_shifted_upto_step(o, shift as nat, i as nat);
                lemma_base_pow_positive(i as nat);
                lemma_accumulate_step(
                    value_upto(prev, i as nat) as int,
                    carry as int,
                    value_upto(old_s, i as nat) as int,
                    mul_digit as int,
                    shifted_upto(o, shift as nat, i as nat) as int,
                    a as int,
                    b as int,
                    base_pow(i as nat) as int,
                    sum as int,
                );
                assert(limb_at(o, i - shift) == b);
                assert(limb_at(old_s, i as int) == a);
            }
            carry = (sum / LIMB_RADIX) as u64;
            i += 1;
        }
        proof {
            lemma_value_upto_padding(old_s, n as nat);
            lemma_value_upto_padding(o, (n - shift) as nat);
            let vo = value_upto(o, o.len() as nat);
            let d = mul_digit as int;
            let p = base_pow(shift as nat) as int;
            assert(d * (p * vo) == vo * d * p) by (nonlinear_arith);
        }
        if carry != 0 {
            let ghost prev = self.value@;
            self.value.push(carry);
            proof {
                assert forall|j: int| 0 <= j < n implies limb_at(self.value@, j) == limb_at(prev, j) by {
                    assert(self.value@[j] == prev[j]);
                }
                lemma_value_upto_ext(self.value@, prev, n as nat);
                assert(value_upto(self.value@, (n + 1) as nat) == value_upto(self.value@, n as nat)
                    + limb_at(self.value@, n as int) * base_pow(n as nat));
            }
        }
    }

    /// `self += other`.
    pub fn add_assign(&mut self, other: &BigUint)
        ensures
            final(self)@ == old(self)@ + other@,
            final(self).value.len() >= old(self).value.len(),
            final(self).value.len() >= other.value.len(),
            final(self).value.len() <= 1 + if old(self).value.len() >= other.value.len() {
                old(self).value.len()
            } else {
                other.value.len()
            },
    {
        proof {
            assert(base_pow(0) == 1);
        }
        self.add_assign_internal(other, 1, 0);
    }

    /// The sum `self + other`.
    pub fn add(&self, other: &BigUint) -> (r: BigUint)
        requires
            self.wf(),
        ensures
            r.wf(),
            r@ == self@ + other@,
            r.value.len() <= 1 + if self.value.len() >= other.value.len() {
                self.value.len()
            } else {
                other.value.len()
            },
    {
        let mut r = self.copy();
        r.add_assign(other);
        r
    }

    /// The difference `self - other`; `other` must not exceed `self`.
    pub fn sub(&self, other: &BigUint) -> (r: BigUint)
        requires
            other@ <= self@,
        ensures
            r.wf(),
            r@ == self@ - other@,
    {
        if let Ordering::Equal = self.cmp(other) {
            return BigUint::from(0);
        }
        let ghost a = self.value@;
        let ghost b = other.value@;
        let n: usize = if self.value.len() >= other.value.len() {
            self.value.len()
        } else {
            other.value.len()
        };
        let mut borrow: u64 = 0;
        let mut res: Vec<u64> = Vec::new();
        let mut i: usize = 0;
        while i < n
            invariant
                n >= a.len(),
                n >= b.len(),
                i <= n,
                a == self.value@,
                b == other.value@,
                res.len() == i,
                borrow <= 1,
                value_upto(res@, i as nat) + value_upto(b, i as nat) == value_upto(a, i as nat)
                    + borrow * base_pow(i as nat),
            decreases n - i,
        {
            let x = self.get(i);
            let y = other.get(i);
            let ghost prev = res@;
            let limb: u64;
            let borrow_out: u64;
            if x as u128 >= y as u128 + borrow as u128 {
                limb = x - y - borrow;
                borrow_out = 0;
            } else {
                limb = (x as u128 + LIMB_RADIX - y as u128 - borrow as u128) as u64;
                borrow_out = 1;
            }
            res.push(limb);
            proof {
                assert forall|j: int| 0 <= j < i implies limb_at(res@, j) == limb_at(prev, j) by {
                    assert(res@[j] == prev[j]);
                }
                lemma_value_upto_ext(res@, prev, i as nat);
                lemma_base_pow_positive(i as nat);
                lemma_subtract_step(
                    value_upto(prev, i as nat) as int,
                    value_upto(b, i as nat) as int,
                    value_upto(a, i as nat) as int,
                    borrow as int,
                    borrow_out as int,
                    x as int,
                    y as int,
                    limb as int,
                    base_pow(i as nat) as int,
                );
            }
            borrow = borrow_out;
            i += 1;
        }
        proof {
            lemma_value_upto_padding(a, n as nat);
            lemma_value_upto_padding(b, n as nat);
            lemma_value_upto_bound(res@, n as nat);
            if borrow == 1 {
                assert(value_upto(res@, n as nat) + value_upto(b, n as nat) == value_upto(a, n as nat)
                    + base_pow(n as nat));
            }
            assert(borrow == 0);
        }
        BigUint { value: res }
    }

    /// Computes `self *= other`: one scaled accumulation per limb of `other`.
    pub fn mul_internal(&mut self, other: BigUint)
        requires
            old(self).wf(),
            other.wf(),
            old(self).value.len() + other.value.len() <= usize::MAX,
        ensures
            final(self).wf(),
            final(self)@ == old(self)@ * other@,
            final(self).value.len() <= old(self).value.len() + other.value.len(),
    {
        let self_clone = self.copy();
        self.value.clear();
        self.value.push(0);
        proof {
            assert(self@ == value_upto(self.value@, 0) + 0 * base_pow(0));
            assert(self_clone@ * 0 == 0);
        }
        let mut i: usize = 0;
        while i < other.value.len()
            invariant
                i <= other.value.len(),
                self_clone.value.len() == old(self).value.len(),
                self_clone@ == old(self)@,
                self_clone.value.len() + other.value.len() <= usize::MAX,
                1 <= self.value.len() <= self_clone.value.len() + i,
                self@ == self_clone@ * value_upto(other.value@, i as nat),
            decreases other.value.len() - i,
        {
            let d = other.get(i);
            self.add_assign_internal(&self_clone, d, i);
            proof {
                let a = self_clone@ as int;
                let v = value_upto(other.value@, i as nat) as int;
                let p = base_pow(i as nat) as int;
                assert(a * v + a * d * p == a * (v + d * p)) by (nonlinear_arith);
            }
            i += 1;
        }
        proof {
            lemma_value_upto_padding(other.value@, other.value.len() as nat);
        }
    }

    /// The product `self * other`. It has at most as many limbs as both factors
    /// together, a count that must fit in `usize`.
    pub fn mul(&self, other: &BigUint) -> (r: BigUint)
        requires
            self.wf(),
            other.wf(),
            self.value.len() + other.value.len() <= usize::MAX,
        ensures
            r.wf(),
            r@ == self@ * other@,
            r.value.len() <= self.value.len() + other.value.len(),
    {
        let mut r = self.copy();
        r.mul_internal(other.copy());
        r
    }
}

} // verus!
