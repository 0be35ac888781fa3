use biguint::BigUint;

fn big(limbs: Vec<u64>) -> BigUint {
    BigUint::from_limbs(limbs)
}

fn dec(n: &BigUint) -> String {
    n.to_decimal_string()
}

#[test]
fn test_cmp() {
    assert_eq!(BigUint::from(0), BigUint::from(0));
    assert!(BigUint::from(0) < BigUint::from(1));
    assert!(BigUint::from(100) > BigUint::from(1));
    assert!(BigUint::from(10000000) > BigUint::from(1));
    assert!(BigUint::from(10000000) > BigUint::from(9999999));
}

#[test]
fn test_addition() {
    assert_eq!(BigUint::from(2).add(&BigUint::from(2)), BigUint::from(4));
    assert_eq!(BigUint::from(5).add(&BigUint::from(3)), BigUint::from(8));
    assert_eq!(
        BigUint { value: vec![0] }.add(&BigUint {
            value: vec![0, 9223372036854775808, 0]
        }),
        BigUint {
            value: vec![0, 9223372036854775808, 0]
        }
    );
}

#[test]
fn test_sub() {
    assert_eq!(BigUint::from(5).sub(&BigUint::from(3)), BigUint::from(2));
    assert_eq!(BigUint::from(0).sub(&BigUint::from(0)), BigUint::from(0));
}

#[test]
fn test_multiplication() {
    assert_eq!(BigUint::from(20).mul(&BigUint::from(3)), BigUint::from(60));
}

#[test]
fn test_rem() {
    assert_eq!(BigUint::from(20).rem(&BigUint::from(3)), BigUint::from(2));
    assert_eq!(BigUint::from(21).rem(&BigUint::from(3)), BigUint::from(0));
    assert_eq!(BigUint::from(22).rem(&BigUint::from(3)), BigUint::from(1));
    assert_eq!(BigUint::from(23).rem(&BigUint::from(3)), BigUint::from(2));
    assert_eq!(BigUint::from(24).rem(&BigUint::from(3)), BigUint::from(0));
}

#[test]
fn test_lshift() {
    let mut n = BigUint::from(1);
    for _ in 0..100 {
        n.lshift();
        println!("{:?}", &n);
        assert_eq!(n.value[0] & 1, 0);
    }
}

#[test]
fn test_gcd() {
    assert_eq!(BigUint::gcd(2.into(), 4.into()), 2.into());
    assert_eq!(BigUint::gcd(4.into(), 2.into()), 2.into());
    assert_eq!(BigUint::gcd(37.into(), 43.into()), 1.into());
    assert_eq!(BigUint::gcd(43.into(), 37.into()), 1.into());
    assert_eq!(BigUint::gcd(215.into(), 86.into()), 43.into());
    assert_eq!(BigUint::gcd(86.into(), 215.into()), 43.into());
}

#[test]
fn test_add_assign_internal() {
    // 0 += (1 * 1) << (64 * 1)
    let mut x = BigUint::from(0);
    x.add_assign_internal(&BigUint::from(1), 1, 1);
    assert_eq!(x, BigUint { value: vec![0, 1] });
}

#[test]
fn test_big_multiplication() {
    assert_eq!(
        BigUint::from(1).mul(&BigUint { value: vec![0, 1] }),
        BigUint { value: vec![0, 1] }
    );
}

#[test]
fn multi_limb_carry() {
    let n = big(vec![14083847773837265618, 6692605942]);
    assert_eq!(dec(&n), "123456789012345678901234567890");
    let m = n.add(&BigUint::from(1));
    assert_eq!(dec(&m), "123456789012345678901234567891");
    let all_ones = big(vec![u64::MAX, u64::MAX]);
    let sum = all_ones.add(&BigUint::from(1));
    assert_eq!(sum.value, vec![0, 0, 1]);
}

#[test]
fn divmod_scenarios() {
    let (q, r) = BigUint::from(23).divmod(&BigUint::from(3));
    assert_eq!((q, r), (BigUint::from(7), BigUint::from(2)));
    let (q, r) = BigUint::from(24).divmod(&BigUint::from(3));
    assert_eq!((q, r), (BigUint::from(8), BigUint::from(0)));
    assert_eq!(BigUint::from(23).div(&BigUint::from(3)), BigUint::from(7));
}

#[test]
fn divmod_quick_cases() {
    let n = BigUint::from(17);
    assert_eq!(n.divmod(&BigUint::from(1)), (BigUint::from(17), BigUint::from(0)));
    assert_eq!(BigUint::from(0).divmod(&n), (BigUint::from(0), BigUint::from(0)));
    assert_eq!(BigUint::from(5).divmod(&n), (BigUint::from(0), BigUint::from(5)));
    assert_eq!(n.divmod(&big(vec![17, 0])), (BigUint::from(1), BigUint::from(0)));
}

#[test]
fn divmod_large_values() {
    // 2^128 + 5 divided by 3
    let n = big(vec![5, 0, 1]);
    let (q, r) = n.divmod(&BigUint::from(3));
    assert_eq!(dec(&q), "113427455640312821154458202477256070487");
    assert_eq!(r, BigUint::from(0));
    // 2^200 divided by 10^20 + 7
    let mut p = BigUint::from(1);
    for _ in 0..200 {
        p.lshift();
    }
    let d = big(vec![7766279631452241927, 5]);
    assert_eq!(dec(&d), "100000000000000000007");
    let (q, r) = p.divmod(&d);
    assert_eq!(dec(&q), "16069380442589902754294764292430332832421");
    assert_eq!(dec(&r), "39643735780505474429");
    assert_eq!(q.mul(&d).add(&r), p);
    assert!(r < d);
}

#[test]
fn divisor_with_top_bit_set() {
    let d = BigUint::from(1u64 << 63);
    let n = big(vec![1, 1]);
    let (q, r) = n.divmod(&d);
    assert_eq!(q, BigUint::from(2));
    assert_eq!(r, BigUint::from(1));
}

#[test]
fn gcd_and_lcm() {
    assert_eq!(BigUint::gcd(BigUint::from(9), BigUint::from(0)), BigUint::from(9));
    assert_eq!(BigUint::gcd(BigUint::from(0), BigUint::from(9)), BigUint::from(9));
    assert_eq!(BigUint::lcm(BigUint::from(4), BigUint::from(6)), BigUint::from(12));
    assert_eq!(BigUint::lcm(BigUint::from(0), BigUint::from(6)), BigUint::from(0));
    let a = BigUint::from(84);
    let b = BigUint::from(36);
    let g = BigUint::gcd(a.clone(), b.clone());
    let l = BigUint::lcm(a.clone(), b.clone());
    assert_eq!(g, BigUint::from(12));
    assert_eq!(l.mul(&g), a.mul(&b));
    assert_eq!(a.rem(&g), BigUint::from(0));
    assert_eq!(b.rem(&g), BigUint::from(0));
}

#[test]
fn pow_scenarios() {
    assert_eq!(BigUint::pow(BigUint::from(2), BigUint::from(10)), Ok(BigUint::from(1024)));
    assert_eq!(
        BigUint::pow(BigUint::from(0), BigUint::from(0)),
        Err("Zero to the power of zero is undefined".to_string())
    );
    assert_eq!(BigUint::pow(BigUint::from(7), BigUint::from(0)), Ok(BigUint::from(1)));
    assert_eq!(BigUint::pow(BigUint::from(0), BigUint::from(5)), Ok(BigUint::from(0)));
    assert_eq!(
        BigUint::pow(BigUint::from(2), big(vec![0, 1])),
        Err("Exponent too large".to_string())
    );
    assert_eq!(BigUint::pow(BigUint::from(5), big(vec![3, 0])), Ok(BigUint::from(125)));
    let p = BigUint::pow(BigUint::from(3), BigUint::from(100)).unwrap();
    assert_eq!(dec(&p), "515377520732011331036461129765621272702107522001");
}

#[test]
fn subtraction_with_borrow() {
    let n = big(vec![0, 1]);
    assert_eq!(n.sub(&BigUint::from(1)), BigUint::from(u64::MAX));
    assert_eq!(big(vec![3, 5, 0]).sub(&big(vec![4, 1])), big(vec![u64::MAX, 3]));
}

#[test]
fn multiplication_multi_limb() {
    let m = BigUint::from(u64::MAX);
    assert_eq!(m.mul(&m).value, vec![1, u64::MAX - 1]);
    let a = big(vec![14083847773837265618, 6692605942]);
    assert_eq!(
        dec(&a.mul(&a)),
        "15241578753238836750495351562536198787501905199875019052100"
    );
}

#[test]
fn trailing_zero_limbs_compare_equal() {
    assert_eq!(big(vec![5, 0, 0]), BigUint::from(5));
    assert!(big(vec![5, 0, 0]) < big(vec![0, 1]));
    assert!(big(vec![0, 0, 0]).is_zero());
    assert_eq!(big(vec![]), BigUint::from(0));
    assert_eq!(big(vec![1, 2, 0]).cmp(&big(vec![1, 2])), std::cmp::Ordering::Equal);
    assert_eq!(big(vec![1, 3]).cmp(&big(vec![2, 2])), std::cmp::Ordering::Greater);
}

#[test]
fn order_is_total() {
    let values = [big(vec![0]), big(vec![7]), big(vec![0, 1]), big(vec![7, 0, 0])];
    for a in values.iter() {
        for b in values.iter() {
            let n = [a < b, a == b, a > b].iter().filter(|x| **x).count();
            assert_eq!(n, 1);
        }
    }
}

#[test]
fn algebraic_identities() {
    let a = big(vec![123, 456]);
    let b = big(vec![u64::MAX, 9]);
    let c = BigUint::from(77);
    assert_eq!(a.add(&b), b.add(&a));
    assert_eq!(a.mul(&b), b.mul(&a));
    assert_eq!(a.add(&b).add(&c), a.add(&b.add(&c)));
    assert_eq!(a.add(&BigUint::from(0)), a);
    assert_eq!(a.mul(&BigUint::from(1)), a);
    let (q, r) = a.divmod(&c);
    assert_eq!(q.mul(&c).add(&r), a);
    assert!(r < c);
}

#[test]
fn shift_round_trip() {
    let mut n = big(vec![0x4000_0000_0000_0001, 3]);
    let orig = n.clone();
    n.lshift();
    assert_eq!(n.value[0] & 1, 0);
    n.rshift();
    assert_eq!(n, orig);
    let mut top = BigUint::from(1u64 << 63);
    top.lshift();
    assert_eq!(top, big(vec![0, 1]));
    let mut odd = BigUint::from(7);
    odd.rshift();
    assert_eq!(odd, BigUint::from(3));
}

#[test]
fn get_and_set() {
    let mut n = BigUint::from(9);
    assert_eq!(n.get(0), 9);
    assert_eq!(n.get(5), 0);
    n.set(2, 4);
    assert_eq!(n.value, vec![9, 0, 4]);
    n.set(0, 1);
    assert_eq!(n.value, vec![1, 0, 4]);
}

#[test]
fn decimal_formatting() {
    assert_eq!(dec(&BigUint::from(0)), "0");
    assert_eq!(dec(&big(vec![0, 0])), "0");
    assert_eq!(dec(&BigUint::from(12)), "12");
    assert_eq!(dec(&big(vec![1000, 0, 0])), "1000");
    assert_eq!(dec(&BigUint::from(u64::MAX)), "18446744073709551615");
    assert_eq!(dec(&big(vec![0, 1])), "18446744073709551616");
}

#[test]
fn pow_of_zero_and_one_with_largest_exponent() {
    let e = BigUint::from(u64::MAX);
    assert_eq!(BigUint::pow(BigUint::from(1), e.clone()), Ok(BigUint::from(1)));
    assert_eq!(BigUint::pow(BigUint::from(0), e.clone()), Ok(BigUint::from(0)));
    assert_eq!(BigUint::pow(big(vec![1, 0, 0]), e), Ok(BigUint::from(1)));
    assert_eq!(BigUint::from(1).pow_internal(0), BigUint::from(1));
    assert_eq!(BigUint::from(0).pow_internal(0), BigUint::from(1));
}

#[test]
fn sum_grows_by_at_most_one_limb() {
    let a = big(vec![u64::MAX, u64::MAX]);
    let s = a.add(&BigUint::from(1));
    assert!(s.value.len() <= 3);
    let t = BigUint::from(1).add(&BigUint::from(2));
    assert_eq!(t.value.len(), 1);
    let mut x = BigUint::from(u64::MAX);
    x.add_assign(&BigUint::from(1));
    assert_eq!(x.value, vec![0, 1]);
}

#[test]
fn common_divisors_divide_gcd() {
    let g = BigUint::gcd(BigUint::from(360), BigUint::from(84));
    assert_eq!(g, BigUint::from(12));
    for d in [1u64, 2, 3, 4, 6, 12] {
        assert_eq!(g.rem(&BigUint::from(d)), BigUint::from(0));
    }
}

#[test]
fn into_conversion() {
    let n: BigUint = 42u64.into();
    assert_eq!(n, BigUint::from(42));
}
