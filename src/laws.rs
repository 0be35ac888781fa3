use crate::biguint::{order_of, BigUint};
use crate::decimal::{decimal_spec, digit_char};
use crate::division::gcd_spec;
use crate::limbs::{
    lemma_value_upto_ext, lemma_value_upto_first_difference, lemma_value_upto_padding,
    limb_at,
};
use crate::power::pow_spec;
use std::cmp::Ordering;
use vstd::prelude::*;

verus! {

/// Order is total: of `a < b`, `a == b` and `a > b` exactly one holds, and
/// `cmp` reports that one.
pub proof fn lemma_order_total(a: BigUint, b: BigUint)
    ensures
        a@ < b@ || a@ == b@ || a@ > b@,
        a@ < b@ ==> a@ != b@ && !(a@ > b@),
        a@ == b@ ==> !(a@ > b@),
        (order_of(a@, b@) == Ordering::Less) == (a@ < b@),
        (order_of(a@, b@) == Ordering::Equal) == (a@ == b@),
        (order_of(a@, b@) == Ordering::Greater) == (a@ > b@),
{
}

/// The order agrees with comparing zero-padded limbs from the top: where all
/// limbs above `i` agree, limb `i` decides.
pub proof fn lemma_order_by_limbs(a: BigUint, b: BigUint, i: nat)
    requires
        a.limb(i as int) < b.limb(i as int),
        forall|j: int| j > i ==> a.limb(j) == b.limb(j),
    ensures
        a@ < b@,
{
    let n = if a.value.len() > b.value.len() {
        a.value.len() as nat
    } else {
        b.value.len() as nat
    };
    let n = if n > i {
        n
    } else {
        i + 1
    };
    assert forall|j: int| i < j < n implies limb_at(a.value@, j) == limb_at(b.value@, j) by {
        assert(a.limb(j) == b.limb(j));
    }
    lemma_value_upto_first_difference(a.value@, b.value@, i, n);
    lemma_value_upto_padding(a.value@, n);
    lemma_value_upto_padding(b.value@, n);
}

/// Values whose zero-padded limbs agree are equal, whatever their stored
/// lengths.
pub proof fn lemma_equal_limbs(a: BigUint, b: BigUint)
    requires
        forall|j: int| a.limb(j) == b.limb(j),
    ensures
        a@ == b@,
{
    let n = if a.value.len() > b.value.len() {
        a.value.len() as nat
    } else {
        b.value.len() as nat
    };
    assert forall|j: int| 0 <= j < n implies limb_at(a.value@, j) == limb_at(b.value@, j) by {
        assert(a.limb(j) == b.limb(j));
    }
    lemma_value_upto_ext(a.value@, b.value@, n);
    lemma_value_upto_padding(a.value@, n);
    lemma_value_upto_padding(b.value@, n);
}

/// Addition and multiplication commute.
pub proof fn lemma_commutative(a: BigUint, b: BigUint)
    ensures
        a@ + b@ == b@ + a@,
        a@ * b@ == b@ * a@,
{
}

/// Addition is associative.
pub proof fn lemma_add_associative(a: BigUint, b: BigUint, c: BigUint)
    ensures
        (a@ + b@) + c@ == a@ + (b@ + c@),
{
}

/// Zero is the identity of addition, one that of multiplication.
pub proof fn lemma_identities(a: BigUint, zero: BigUint, one: BigUint)
    requires
        zero@ == 0,
        one@ == 1,
    ensures
        a@ + zero@ == a@,
        a@ * one@ == a@,
{
}

/// Quotient times divisor plus remainder gives back the dividend, and the
/// remainder is below the divisor.
pub proof fn lemma_division_law(a: BigUint, b: BigUint)
    requires
        b@ != 0,
    ensures
        (a@ / b@) * b@ + a@ % b@ == a@,
        a@ % b@ < b@,
{
    vstd::arithmetic::div_mod::lemma_fundamental_div_mod(a@ as int, b@ as int);
}

/// `gcd(a, 0) == a`.
pub proof fn lemma_gcd_zero(a: BigUint)
    ensures
        gcd_spec(a@, 0) == a@,
{
}

/// Any nonzero base to the power zero is one.
pub proof fn lemma_pow_zero_exponent(a: BigUint)
    requires
        a@ != 0,
    ensures
        pow_spec(a@, 0) == 1,
{
}

/// Halving undoes doubling, and a doubled value is even.
pub proof fn lemma_shift_inverse(a: BigUint)
    ensures
        (2 * a@) / 2 == a@,
        (2 * a@) % 2 == 0,
{
}

/// Zero is written `"0"`; any other value starts with a nonzero digit.
pub proof fn lemma_decimal_no_leading_zero(n: nat)
    ensures
        decimal_spec(0) == seq!['0'],
        n > 0 ==> decimal_spec(n)[0] != '0',
    decreases n,
{
    if n >= 10 {
        lemma_decimal_no_leading_zero(n / 10);
        assert(decimal_spec(n) == decimal_spec(n / 10).push(digit_char(n % 10)));
    }
}

} // verus!
