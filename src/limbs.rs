use vstd::prelude::*;

verus! {

/// The radix of one limb: 2^64.
pub open spec fn limb_base() -> nat {
    0x1_0000_0000_0000_0000
}

/// `limb_base()` raised to the `n`-th power: the weight of limb `n`.
pub open spec fn base_pow(n: nat) -> nat
    decreases n,
{
    if n == 0 {
        1
    } else {
        limb_base() * base_pow((n - 1) as nat)
    }
}

/// Limb `i` of a little-endian limb sequence, reading zero past its end.
pub open spec fn limb_at(s: Seq<u64>, i: int) -> nat {
    if 0 <= i < s.len() {
        s[i] as nat
    } else {
        0
    }
}

/// The value of the lowest `n` limbs of `s` (zero-padded past its end).
pub open spec fn value_upto(s: Seq<u64>, n: nat) -> nat
    decreases n,
{
    if n == 0 {
        0
    } else {
        value_upto(s, (n - 1) as nat) + limb_at(s, n - 1) * base_pow((n - 1) as nat)
    }
}

/// The number that a little-endian limb sequence stands for.
pub open spec fn value_of(s: Seq<u64>) -> nat {
    value_upto(s, s.len())
}

pub proof fn lemma_base_pow_positive(n: nat)
    ensures
        base_pow(n) >= 1,
        base_pow(n + 1) == limb_base() * base_pow(n),
    decreases n,
{
    if n > 0 {
        lemma_base_pow_positive((n - 1) as nat);
        assert(limb_base() * base_pow((n - 1) as nat) >= 1) by (nonlinear_arith)
            requires
                base_pow((n - 1) as nat) >= 1,
        ;
    }
}

pub proof fn lemma_base_pow_add(m: nat, n: nat)
    ensures
        base_pow(m + n) == base_pow(m) * base_pow(n),
    decreases n,
{
    if n > 0 {
        lemma_base_pow_add(m, (n - 1) as nat);
        let a = base_pow(m);
        let b = base_pow((n - 1) as nat);
        assert(base_pow((m + n) as nat) == limb_base() * base_pow((m + n - 1) as nat));
        assert(limb_base() * (a * b) == a * (limb_base() * b)) by (nonlinear_arith);
    } else {
        assert(base_pow(0) == 1);
        assert(base_pow(m) * 1 == base_pow(m));
    }
}

/// The lowest `n` limbs are worth less than `limb_base()^n`.
pub proof fn lemma_value_upto_bound(s: Seq<u64>, n: nat)
    ensures
        value_upto(s, n) < base_pow(n),
    decreases n,
{
    if n > 0 {
        let k = (n - 1) as nat;
        lemma_value_upto_bound(s, k);
        lemma_base_pow_positive(k);
        let v = value_upto(s, k);
        let l = limb_at(s, k as int);
        let p = base_pow(k);
        assert(v + l * p < limb_base() * p) by (nonlinear_arith)
            requires
                v < p,
                l < limb_base(),
        ;
    }
}

/// `value_upto` reads only the limbs below `n`.
pub proof fn lemma_value_upto_ext(s: Seq<u64>, t: Seq<u64>, n: nat)
    requires
        forall|j: int| 0 <= j < n ==> limb_at(s, j) == limb_at(t, j),
    ensures
        value_upto(s, n) == value_upto(t, n),
    decreases n,
{
    if n > 0 {
        lemma_value_upto_ext(s, t, (n - 1) as nat);
    }
}

/// Zero limbs past the end add nothing.
pub proof fn lemma_value_upto_padding(s: Seq<u64>, n: nat)
    requires
        n >= s.len(),
    ensures
        value_upto(s, n) == value_of(s),
    decreases n,
{
    if n > s.len() {
        lemma_value_upto_padding(s, (n - 1) as nat);
        assert(limb_at(s, n - 1) == 0);
        assert(value_upto(s, n) == value_upto(s, (n - 1) as nat) + 0 * base_pow((n - 1) as nat));
    }
}

/// Two sequences that agree on the limbs in `[i, n)` differ, below `n`, by what
/// they differ below `i`.
pub proof fn lemma_value_upto_high_agree(s: Seq<u64>, t: Seq<u64>, i: nat, n: nat)
    requires
        i <= n,
        forall|j: int| i <= j < n ==> limb_at(s, j) == limb_at(t, j),
    ensures
        value_upto(s, n) - value_upto(s, i) == value_upto(t, n) - value_upto(t, i),
    decreases n,
{
    if n > i {
        lemma_value_upto_high_agree(s, t, i, (n - 1) as nat);
    }
}

/// Comparison from the most significant limb down: the first limb that differs
/// decides the order.
pub proof fn lemma_value_upto_first_difference(s: Seq<u64>, t: Seq<u64>, i: nat, n: nat)
    requires
        i < n,
        limb_at(s, i as int) < limb_at(t, i as int),
        forall|j: int| i < j < n ==> limb_at(s, j) == limb_at(t, j),
    ensures
        value_upto(s, n) < value_upto(t, n),
{
    lemma_value_upto_high_agree(s, t, i + 1, n);
    lemma_value_upto_bound(s, i);
    let vs = value_upto(s, i);
    let vt = value_upto(t, i);
    let ls = limb_at(s, i as int);
    let lt = limb_at(t, i as int);
    let p = base_pow(i);
    assert(vs + ls * p < vt + lt * p) by (nonlinear_arith)
        requires
            vs < p,
            ls < lt,
            vt >= 0,
    ;
}

/// The value of the lowest `n` limbs of `s` moved up by `shift` limbs, read
/// below limb `n`.
pub open spec fn shifted_upto(s: Seq<u64>, shift: nat, n: nat) -> nat {
    if n >= shift {
        base_pow(shift) * value_upto(s, (n - shift) as nat)
    } else {
        0
    }
}

pub proof fn lemma_shifted_upto_step(s: Seq<u64>, shift: nat, n: nat)
    ensures
        shifted_upto(s, shift, n + 1) == shifted_upto(s, shift, n) + limb_at(s, n - shift)
            * base_pow(n),
{
    if n >= shift {
        let k = (n - shift) as nat;
        lemma_base_pow_add(shift, k);
        assert(value_upto(s, k + 1) == value_upto(s, k) + limb_at(s, k as int) * base_pow(k));
        let p = base_pow(shift);
        let v = value_upto(s, k);
        let l = limb_at(s, k as int);
        let q = base_pow(k);
        assert(p * (v + l * q) == p * v + l * (p * q)) by (nonlinear_arith);
        assert((n + 1 - shift) as nat == k + 1);
    } else if n + 1 == shift {
        assert(value_upto(s, 0) == 0);
        assert(base_pow(shift) * 0 == 0);
    }
}

/// One limb of `acc + digit * x`: the limb written and the carry out together
/// hold what the limb sum held.
pub proof fn lemma_accumulate_step(
    acc: int,
    carry: int,
    target: int,
    digit: int,
    shifted: int,
    a: int,
    b: int,
    p: int,
    sum: int,
)
    requires
        acc + carry * p == target + digit * shifted,
        sum == a + b * digit + carry,
        sum >= 0,
    ensures
        acc + (sum % limb_base() as int) * p + (sum / limb_base() as int) * (limb_base() * p)
            == target + a * p + digit * (shifted + b * p),
{
    let m = limb_base() as int;
    vstd::arithmetic::div_mod::lemma_fundamental_div_mod(sum, m);
    let q = sum / m;
    let r = sum % m;
    assert(r * p + q * (m * p) == (m * q + r) * p) by (nonlinear_arith);
    assert(sum * p == a * p + digit * (b * p) + carry * p) by (nonlinear_arith)
        requires
            sum == a + b * digit + carry,
    ;
    assert(digit * (shifted + b * p) == digit * shifted + digit * (b * p)) by (nonlinear_arith);
}

/// One limb of `a - b` with a borrow: the limb written, the subtrahend's limb
/// and the borrow in make the minuend's limb plus the borrow out.
pub proof fn lemma_subtract_step(
    vr: int,
    vb: int,
    va: int,
    borrow: int,
    borrow_out: int,
    a: int,
    b: int,
    r: int,
    p: int,
)
    requires
        vr + vb == va + borrow * p,
        r + b + borrow == a + borrow_out * limb_base(),
    ensures
        vr + r * p + (vb + b * p) == va + a * p + borrow_out * (limb_base() * p),
{
    assert((r + b + borrow) * p == (a + borrow_out * limb_base()) * p);
    assert((r + b + borrow) * p == r * p + b * p + borrow * p) by (nonlinear_arith);
    assert((a + borrow_out * limb_base()) * p == a * p + borrow_out * (limb_base() * p))
        by (nonlinear_arith);
}

/// A value is at least any one of its limbs times that limb's weight.
pub proof fn lemma_value_upto_ge_limb(s: Seq<u64>, i: nat, n: nat)
    requires
        i < n,
    ensures
        value_upto(s, n) >= limb_at(s, i as int) * base_pow(i),
    decreases n,
{
    if n > i + 1 {
        lemma_value_upto_ge_limb(s, i, (n - 1) as nat);
    }
}

/// The lowest limb is the value modulo `limb_base()`.
pub proof fn lemma_value_upto_low_limb(s: Seq<u64>, n: nat)
    requires
        n >= 1,
    ensures
        value_upto(s, n) % limb_base() == limb_at(s, 0),
    decreases n,
{
    if n == 1 {
        assert(value_upto(s, 0) == 0);
        assert(base_pow(0) == 1);
        assert(value_upto(s, 1) == limb_at(s, 0));
    } else {
        let k = (n - 1) as nat;
        lemma_value_upto_low_limb(s, k);
        lemma_base_pow_positive((k - 1) as nat);
        let v = value_upto(s, k);
        let m = limb_at(s, k as int) * base_pow((k - 1) as nat);
        assert(limb_at(s, k as int) * base_pow(k) == limb_base() * m) by (nonlinear_arith)
            requires
                base_pow(k) == limb_base() * base_pow((k - 1) as nat),
                m == limb_at(s, k as int) * base_pow((k - 1) as nat),
        ;
        vstd::arithmetic::div_mod::lemma_mod_multiples_vanish(m as int, v as int, limb_base() as int);
    }
}

} // verus!
