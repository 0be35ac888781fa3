use crate::biguint::BigUint;
use crate::limbs::{
    base_pow, lemma_base_pow_positive, lemma_value_upto_ext, lemma_value_upto_low_limb,
    lemma_value_upto_padding, limb_at, limb_base, value_upto,
};
use vstd::prelude::*;

verus! {

/// Shifting a limb left by one and filling its low bit with the bit carried in.
proof fn lemma_limb_shl(v: u64, c: u64)
    requires
        c <= 1,
    ensures
        (v << 1u64) | c == (v % 0x8000_0000_0000_0000) * 2 + c,
        v >> 63u64 == v / 0x8000_0000_0000_0000,
        v >> 63u64 <= 1,
{
    assert((v << 1u64) | c == (v % 0x8000_0000_0000_0000) * 2 + c) by (bit_vector)
        requires
            c <= 1,
    ;
    assert(v >> 63u64 == v / 0x8000_0000_0000_0000) by (bit_vector);
}

/// Shifting a limb right by one and filling its top bit with the low bit of the
/// next limb.
proof fn lemma_limb_shr(v: u64, next: u64)
    ensures
        (v >> 1u64) | (next << 63u64) == v / 2 + (next % 2) * 0x8000_0000_0000_0000,
{
    assert((v >> 1u64) | (next << 63u64) == v / 2 + (next % 2) * 0x8000_0000_0000_0000)
        by (bit_vector);
}

proof fn lemma_double_step(vn: int, vo: int, carry: int, carry_out: int, v: int, limb: int, p: int)
    requires
        vn + carry * p == 2 * vo,
        limb == (v % 0x8000_0000_0000_0000) * 2 + carry,
        carry_out == v / 0x8000_0000_0000_0000,
        0 <= v,
    ensures
        vn + limb * p + carry_out * (limb_base() * p) == 2 * (vo + v * p),
{
    let h = 0x8000_0000_0000_0000int;
    vstd::arithmetic::div_mod::lemma_fundamental_div_mod(v, h);
    assert(limb * p + carry_out * (limb_base() * p) == 2 * (v * p) + carry * p) by (nonlinear_arith)
        requires
            limb == (v % h) * 2 + carry,
            carry_out == v / h,
            v == h * (v / h) + v % h,
            limb_base() == 2 * h,
    ;
}

proof fn lemma_halve_step(vn: int, vo: int, low: int, v: int, next: int, limb: int, p: int)
    requires
        2 * vn + low == vo + (v % 2) * p,
        limb == v / 2 + (next % 2) * 0x8000_0000_0000_0000,
        0 <= v,
        0 <= next,
    ensures
        2 * (vn + limb * p) + low == vo + v * p + (next % 2) * (limb_base() * p),
{
    vstd::arithmetic::div_mod::lemma_fundamental_div_mod(v, 2);
    assert(2 * (limb * p) == (v - v % 2) * p + (next % 2) * (limb_base() * p)) by (nonlinear_arith)
        requires
            limb == v / 2 + (next % 2) * 0x8000_0000_0000_0000,
            v == 2 * (v / 2) + v % 2,
    ;
    assert((v - v % 2) * p + (v % 2) * p == v * p) by (nonlinear_arith);
}

impl BigUint {
    /// Doubles the value: every limb moves up one bit and hands its top bit to
    /// the next limb. A zero limb is appended first when the top limb has bit 62
    /// or bit 63 set, so that no bit is lost.
    pub fn lshift(&mut self)
        requires
            old(self).wf(),
        ensures
            final(self).wf(),
            final(self)@ == 2 * old(self)@,
            final(self).limb(0) % 2 == 0,
            final(self).value.len() <= old(self).value.len() + 1,
    {
        let top = self.value[self.value.len() - 1];
        if top >= 0x4000_0000_0000_0000 {
            let ghost prev = self.value@;
            self.value.push(0);
            proof {
                assert forall|j: int| 0 <= j < prev.len() implies limb_at(self.value@, j)
                    == limb_at(prev, j) by {
                    assert(self.value@[j] == prev[j]);
                }
                lemma_value_upto_ext(self.value@, prev, prev.len() as nat);
                assert(value_upto(self.value@, self.value.len() as nat) == value_upto(
                    self.value@,
                    prev.len() as nat,
                ) + 0 * base_pow(prev.len() as nat));
            }
        }
        let ghost s0 = self.value@;
        assert(s0[s0.len() - 1] < 0x8000_0000_0000_0000);
        let mut carry: u64 = 0;
        let mut i: usize = 0;
        proof {
            assert(value_upto(s0, 0) == 0);
        }
        while i < self.value.len()
            invariant
                self.value.len() == s0.len(),
                s0.len() >= 1,
                s0[s0.len() - 1] < 0x8000_0000_0000_0000,
                i <= s0.len(),
                carry <= 1,
                i > 0 ==> carry as int == s0[i - 1] / 0x8000_0000_0000_0000,
                i > 0 ==> self.value@[0] % 2 == 0,
                forall|j: int| i <= j < s0.len() ==> self.value@[j] == s0[j],
                value_upto(self.value@, i as nat) + carry * base_pow(i as nat) == 2 * value_upto(
                    s0,
                    i as nat,
                ),
            decreases s0.len() - i,
        {
            let v = self.value[i];
            proof {
                lemma_limb_shl(v, carry);
            }
            let limb = (v << 1u64) | carry;
            let ghost prev = self.value@;
            self.value.set(i, limb);
            proof {
                assert forall|j: int| 0 <= j < i implies limb_at(self.value@, j) == limb_at(prev, j) by {
                    assert(self.value@[j] == prev[j]);
                }
                lemma_value_upto_ext(self.value@, prev, i as nat);
                lemma_base_pow_positive(i as nat);
                lemma_double_step(
                    value_upto(prev, i as nat) as int,
                    value_upto(s0, i as nat) as int,
                    carry as int,
                    (v / 0x8000_0000_0000_0000) as int,
                    v as int,
                    limb as int,
                    base_pow(i as nat) as int,
                );
            }
            carry = v >> 63u64;
            i += 1;
        }
        proof {
            assert(carry == 0);
        }
    }

    /// Halves the value, rounding down: every limb moves down one bit and takes
    /// the low bit of the next limb (zero past the stored limbs) as its top bit.
    pub fn rshift(&mut self)
        ensures
            final(self)@ == old(self)@ / 2,
            final(self).value.len() == old(self).value.len(),
    {
        let ghost s0 = self.value@;
        let mut i: usize = 0;
        proof {
            assert(value_upto(s0, 0) == 0);
            assert(base_pow(0) == 1);
        }
        while i < self.value.len()
            invariant
                self.value.len() == s0.len(),
                i <= s0.len(),
                forall|j: int| i <= j < s0.len() ==> self.value@[j] == s0[j],
                2 * value_upto(self.value@, i as nat) + limb_at(s0, 0) % 2 == value_upto(
                    s0,
                    i as nat,
                ) + (limb_at(s0, i as int) % 2) * base_pow(i as nat),
            decreases s0.len() - i,
        {
            let v = self.value[i];
            let next = self.get(i + 1);
            proof {
                lemma_limb_shr(v, next);
            }
            let limb = (v >> 1u64) | (next << 63u64);
            let ghost prev = self.value@;
            self.value.set(i, limb);
            proof {
                assert forall|j: int| 0 <= j < i implies limb_at(self.value@, j) == limb_at(prev, j) by {
                    assert(self.value@[j] == prev[j]);
                }
                lemma_value_upto_ext(self.value@, prev, i as nat);
                lemma_base_pow_positive(i as nat);
                lemma_halve_step(
                    value_upto(prev, i as nat) as int,
                    value_upto(s0, i as nat) as int,
                    (limb_at(s0, 0) % 2) as int,
                    v as int,
                    next as int,
                    limb as int,
                    base_pow(i as nat) as int,
                );
            }
            i += 1;
        }
        proof {
            lemma_value_upto_padding(s0, s0.len() as nat);
            let n = s0.len() as nat;
            let low = limb_at(s0, 0) % 2;
            let half = value_upto(self.value@, n);
            assert(limb_at(s0, n as int) == 0);
            let top = limb_at(s0, n as int) % 2;
            assert(top == 0);
            assert(top * base_pow(n) == 0);
            assert(2 * half + low == value_upto(s0, n));
            assert(half * 2 + low == value_upto(s0, n));
            if s0.len() > 0 {
                lemma_value_upto_low_limb(s0, s0.len() as nat);
            }
            vstd::arithmetic::div_mod::lemma_fundamental_div_mod_converse(
                value_upto(s0, s0.len() as nat) as int,
                2,
                value_upto(self.value@, s0.len() as nat) as int,
                low as int,
            );
        }
    }
}

} // verus!
