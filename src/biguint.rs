use crate::limbs::{
    base_pow, lemma_base_pow_positive, lemma_value_upto_first_difference,
    lemma_value_upto_ge_limb, lemma_value_upto_high_agree, lemma_value_upto_padding, limb_at,
    value_of, value_upto,
};
use std::cmp::Ordering;
use vstd::prelude::*;

verus! {

/// An unsigned integer of any size.
///
/// `value` holds 64-bit limbs, least significant first. It is never empty; zero
/// limbs past the most significant nonzero one are allowed and change nothing.
#[derive(Clone, Debug)]
pub struct BigUint {
    pub value: Vec<u64>,
}

impl View for BigUint {
    type V = nat;

    open spec fn view(&self) -> nat {
        value_of(self.value@)
    }
}

/// The ordering of two naturals, as `Ord::cmp` gives it.
pub open spec fn order_of(a: nat, b: nat) -> Ordering {
    if a < b {
        Ordering::Less
    } else if a == b {
        Ordering::Equal
    } else {
        Ordering::Greater
    }
}

impl BigUint {
    /// The limb sequence is not empty.
    pub open spec fn wf(&self) -> bool {
        self.value.len() >= 1
    }

    /// Limb `i`, zero past the stored limbs.
    pub open spec fn limb(&self, i: int) -> nat {
        limb_at(self.value@, i)
    }

    /// A single-limb value.
    pub fn from(val: u64) -> (r: BigUint)
        ensures
            r.wf(),
            r@ == val as nat,
            r.value@ == seq![val],
    {
        let r = BigUint { value: vec![val] };
        proof {
            assert(base_pow(0) == 1);
            assert(r@ == value_upto(r.value@, 0) + limb_at(r.value@, 0) * 1);
        }
        r
    }

    /// A value made of the given limbs, least significant first; no limbs make zero.
    pub fn from_limbs(limbs: Vec<u64>) -> (r: BigUint)
        ensures
            r.wf(),
            r@ == value_of(limbs@),
    {
        let mut r = BigUint { value: limbs };
        if r.value.len() == 0 {
            r.value.push(0);
            proof {
                assert(r@ == value_upto(r.value@, 0) + 0 * base_pow(0));
            }
        }
        r
    }

    /// A copy that keeps the limbs.
    pub fn copy(&self) -> (r: BigUint)
        ensures
            r.value@ == self.value@,
    {
        BigUint { value: self.value.clone() }
    }

    /// Whether every stored limb is zero.
    pub fn is_zero(&self) -> (r: bool)
        ensures
            r == (self@ == 0),
    {
        let mut i: usize = 0;
        while i < self.value.len()
            invariant
                i <= self.value.len(),
                value_upto(self.value@, i as nat) == 0,
            decreases self.value.len() - i,
        {
            if self.value[i] != 0 {
                proof {
                    lemma_value_upto_ge_limb(self.value@, i as nat, self.value.len() as nat);
                    lemma_base_pow_positive(i as nat);
                    let l = limb_at(self.value@, i as int);
                    let p = base_pow(i as nat);
                    assert(l * p >= 1) by (nonlinear_arith)
                        requires
                            l >= 1,
                            p >= 1,
                    ;
                }
                return false;
            }
            proof {
                assert(value_upto(self.value@, (i + 1) as nat) == 0 + 0 * base_pow(i as nat));
            }
            i += 1;
        }
        true
    }

    /// Limb `idx`, or 0 past the stored limbs; never grows the storage.
    pub fn get(&self, idx: usize) -> (r: u64)
        ensures
            r as nat == self.limb(idx as int),
    {
        if idx < self.value.len() {
            self.value[idx]
        } else {
            0
        }
    }

    /// Writes limb `idx`, first growing the storage with zero limbs as needed.
    pub fn set(&mut self, idx: usize, new_value: u64)
        ensures
            final(self).value.len() == if idx < old(self).value.len() {
                old(self).value.len() as int
            } else {
                idx + 1
            },
            forall|j: int|
                #![trigger limb_at(final(self).value@, j)]
                limb_at(final(self).value@, j) == if j == idx {
                    new_value as nat
                } else {
                    limb_at(old(self).value@, j)
                },
    {
        while idx >= self.value.len()
            invariant
                old(self).value.len() <= self.value.len(),
                self.value.len() <= idx + 1 || self.value.len() == old(self).value.len(),
                forall|j: int|
                    #![trigger limb_at(self.value@, j)]
                    limb_at(self.value@, j) == limb_at(old(self).value@, j),
            decreases idx + 1 - self.value.len(),
        {
            let ghost prev = self.value@;
            self.value.push(0);
            assert forall|j: int| limb_at(self.value@, j) == limb_at(old(self).value@, j) by {
                assert(limb_at(prev, j) == limb_at(old(self).value@, j));
                if 0 <= j < prev.len() {
                    assert(self.value@[j] == prev[j]);
                }
            }
        }
        let ghost grown = self.value@;
        self.value.set(idx, new_value);
        assert forall|j: int|
            limb_at(self.value@, j) == if j == idx {
                new_value as nat
            } else {
                limb_at(grown, j)
            } by {
            if 0 <= j < grown.len() && j != idx {
                assert(self.value@[j] == grown[j]);
            }
        }
    }

    /// Compares the values, limb by limb from the most significant one down.
    pub fn cmp(&self, other: &BigUint) -> (r: Ordering)
        ensures
            r == order_of(self@, other@),
    {
        let mut i: usize = if self.value.len() >= other.value.len() {
            self.value.len()
        } else {
            other.value.len()
        };
        let ghost n = i as nat;
        while i != 0
            invariant
                i <= n,
                n >= self.value.len(),
                n >= other.value.len(),
                forall|j: int| i <= j < n ==> limb_at(self.value@, j) == limb_at(other.value@, j),
            decreases i,
        {
            let v1 = self.get(i - 1);
            let v2 = other.get(i - 1);
            if v1 < v2 {
                proof {
                    lemma_value_upto_first_difference(self.value@, other.value@, (i - 1) as nat, n);
                    lemma_value_upto_padding(self.value@, n);
                    lemma_value_upto_padding(other.value@, n);
                }
                return Ordering::Less;
            } else if v1 > v2 {
                proof {
                    lemma_value_upto_first_difference(other.value@, self.value@, (i - 1) as nat, n);
                    lemma_value_upto_padding(self.value@, n);
                    lemma_value_upto_padding(other.value@, n);
                }
                return Ordering::Greater;
            }
            i -= 1;
        }
        proof {
            lemma_value_upto_high_agree(self.value@, other.value@, 0, n);
            lemma_value_upto_padding(self.value@, n);
            lemma_value_upto_padding(other.value@, n);
        }
        Ordering::Equal
    }
}

impl PartialEq for BigUint {
    fn eq(&self, other: &BigUint) -> (r: bool) {
        match self.cmp(other) {
            Ordering::Equal => true,
            _ => false,
        }
    }
}

impl vstd::std_specs::cmp::PartialEqSpecImpl for BigUint {
    open spec fn obeys_eq_spec() -> bool {
        true
    }

    open spec fn eq_spec(&self, other: &BigUint) -> bool {
        self@ == other@
    }
}

impl Eq for BigUint {}

impl From<u64> for BigUint {
    /// The single-limb value; `BigUint::from`, the inherent function, states it.
    fn from(val: u64) -> (r: BigUint) {
        BigUint::from(val)
    }
}

impl vstd::std_specs::convert::FromSpecImpl<u64> for BigUint {
    /// Equality of two values that hold a `Vec` is not something a contract can
    /// show, so the conversion states nothing through this trait.
    open spec fn obeys_from_spec() -> bool {
        false
    }

    open spec fn from_spec(v: u64) -> BigUint {
        choose|r: BigUint| r.wf() && r@ == v as nat
    }
}

impl PartialOrd for BigUint {
    fn partial_cmp(&self, other: &BigUint) -> (r: Option<Ordering>) {
        Some(self.cmp(other))
    }
}

impl vstd::std_specs::cmp::PartialOrdSpecImpl for BigUint {
    open spec fn obeys_partial_cmp_spec() -> bool {
        true
    }

    open spec fn partial_cmp_spec(&self, other: &BigUint) -> Option<Ordering> {
        Some(order_of(self@, other@))
    }
}

} // verus!
