use algo_kernels::arithmetic::{
    cal_lemire_reduction_magic_number, lemire_division, lemire_reduction_mod,
};
use algo_kernels::exgcd::{
    exgcd_iter, exgcd_rec, exgcd_rec_i64, inverse_exgcd_iter, inverse_exgcd_rec,
};
use algo_kernels::montgomery_multiplication::{
    fast_sum, faster_sum, inverse_using_montgomery, inverse_with_montgomery, slow_sum, Montgomery,
};
use algo_kernels::loops_and_conditionals::{for_sum, unroll_for_sum};
use algo_kernels::number_theory::{binpow_iter, binpow_iter_with_mod, binpow_rec, inverse};

#[test]
fn test_lemire_reduction() {
    let n = 10;
    let x = 3;
    let magic_number_x = cal_lemire_reduction_magic_number(x);
    assert_eq!(lemire_reduction_mod(n, x, magic_number_x), 1);
    assert_eq!(lemire_division(n, magic_number_x), 3);

    let n = 10000;
    let x = 123;
    let magic_number_x = cal_lemire_reduction_magic_number(x);
    assert_eq!(magic_number_x, (u64::MAX / x as u64) + 1);
    assert_eq!(lemire_reduction_mod(n, x, magic_number_x), 37);
    assert_eq!(lemire_division(n, magic_number_x), 81);
}

#[test]
fn test_lemire_more_divisors() {
    for x in [2u32, 5, 7, 1000, 65537, 1_000_000] {
        let magic = cal_lemire_reduction_magic_number(x);
        for n in [0u64, 1, 2, 99, 12345, 4_000_000_000] {
            assert_eq!(lemire_reduction_mod(n, x, magic) as u64, n % x as u64);
            assert_eq!(lemire_division(n, magic), n / x as u64);
        }
    }
}

#[test]
fn test_binpow_rec() {
    assert_eq!(binpow_rec::<1000000007>(2, 10), 1024);
    assert_eq!(binpow_rec::<1000000007>(3, 5), 243);
    assert_eq!(binpow_rec::<1000000007>(5, 0), 1);
}

#[test]
fn test_binpow_iter() {
    assert_eq!(binpow_iter::<1000000007>(2, 10), 1024);
    assert_eq!(binpow_iter::<1000000007>(3, 5), 243);
    assert_eq!(binpow_iter::<1000000007>(5, 0), 1);
}

#[test]
fn test_binpow_iter_with_mod() {
    assert_eq!(binpow_iter_with_mod(2, 10, 1000), 24);
    assert_eq!(binpow_iter_with_mod(3, 5, 1000), 243);
    assert_eq!(binpow_iter_with_mod(5, 0, 1000), 1);
}

#[test]
fn test_binpow_strategies_agree() {
    for base in [0u64, 1, 2, 7, 999, 123456] {
        for exp in [0u64, 1, 2, 3, 17, 64, 1000] {
            let a = binpow_rec::<1_000_003>(base, exp);
            let b = binpow_iter::<1_000_003>(base, exp);
            let c = binpow_iter_with_mod(base, exp, 1_000_003) as u64;
            assert_eq!(a, b);
            assert_eq!(a, c);
        }
    }
}

#[test]
fn test_inverse() {
    assert_eq!(inverse::<1000000007>(2), 500000004);
    assert_eq!(inverse::<1000000007>(3), 333333336);
    assert_eq!(inverse::<1000000007>(5), 400000003);
}

#[test]
fn test_inverse_exgcd_rec() {
    assert_eq!(inverse_exgcd_rec(2, 1000000007), Some(500000004));
    assert_eq!(inverse_exgcd_rec(3, 1000000007), Some(333333336));
    assert_eq!(inverse_exgcd_rec(5, 1000000007), Some(400000003));
    assert_eq!(inverse_exgcd_rec(6, 1000000006), None);
}

#[test]
fn test_inverse_exgcd() {
    let inv = inverse_exgcd_rec(3, 7).unwrap();
    assert_eq!(inv, 5);

    let inv = inverse_exgcd_iter(3, 7).unwrap();
    assert_eq!(inv, 5);

    let inv = inverse_exgcd_rec(4, 7);
    assert_eq!(inv, Some(2));

    let inv = inverse_exgcd_iter(4, 7);
    assert_eq!(inv, Some(2));
}

#[test]
fn test_inverse_exgcd_iter_not_coprime() {
    assert_eq!(inverse_exgcd_iter(6, 1000000006), None);
    assert_eq!(inverse_exgcd_iter(0, 5), None);
    assert_eq!(inverse_exgcd_iter(10, 4), None);
}

#[test]
fn test_exgcd() {
    let (gcd, x, y) = exgcd_rec(30, 12);
    assert_eq!(gcd, x * 30 + y * 12);

    let (gcd, x, y) = exgcd_iter(30, 12);
    assert_eq!(gcd, x * 30 + y * 12);

    let (gcd, x, y) = exgcd_rec_i64(30, 12);
    assert_eq!(gcd, x * 30 + y * 12);
}

#[test]
fn test_exgcd_values() {
    assert_eq!(exgcd_rec(30, 12).0, 6);
    assert_eq!(exgcd_iter(30, 12).0, 6);
    assert_eq!(exgcd_rec(0, 9).0, 9);
    assert_eq!(exgcd_iter(0, 9).0, 9);
    assert_eq!(exgcd_rec(9, 0).0, 9);
    assert_eq!(exgcd_iter(9, 0).0, 9);
    assert_eq!(exgcd_rec(0, 0).0, 0);
    assert_eq!(exgcd_iter(0, 0).0, 0);
    // the two variants agree on the gcd itself
    for a in 0..40i32 {
        for b in 0..40i32 {
            assert_eq!(exgcd_rec(a, b).0, exgcd_iter(a, b).0);
            let (g, x, y) = exgcd_iter(a, b);
            assert_eq!(g, x * a + y * b);
        }
    }
}

#[test]
fn test_montgomery() {
    let montgomery = Montgomery::new(1_000_000_007);
    let a = montgomery.to(2);
    let b = montgomery.to(3);
    assert_eq!(montgomery.from(montgomery.mul(a, b)), 6);
}

#[test]
fn test_montgomery_roundtrip() {
    let montgomery = Montgomery::new(97);
    for x in 1u32..=97 {
        assert_eq!(montgomery.from(montgomery.to(x)), x);
    }
    // multiplication matches plain modular arithmetic
    for x in 1u32..=96 {
        for y in 1u32..=96 {
            let product = montgomery.from(montgomery.mul(montgomery.to(x), montgomery.to(y)));
            let expected = (x * y) % 97;
            let expected = if expected == 0 { 97 } else { expected };
            assert_eq!(product, expected);
        }
    }
}

#[test]
fn test_inverse_with_montgomery() {
    assert_eq!(inverse_using_montgomery(2, 1_000_000_007), 500000004);
    assert_eq!(inverse_using_montgomery(3, 1_000_000_007), 333333336);
    assert_eq!(inverse_using_montgomery(4, 1_000_000_007), 250000002);
}

#[test]
fn test_inverse_with_montgomery_shared_context() {
    let montgomery = Montgomery::new(1_000_000_007);
    assert_eq!(inverse_with_montgomery(2, &montgomery), 500000004);
    assert_eq!(inverse_with_montgomery(3, &montgomery), 333333336);
    assert_eq!(inverse_with_montgomery(4, &montgomery), 250000002);
}

#[test]
fn test_modular_sums() {
    let a = vec![1, 2, 3, 4, 0, 3];
    assert_eq!(slow_sum(a.clone(), 5), 13 % 5);
    assert_eq!(fast_sum(a.clone(), 5), 13 % 5);
    assert_eq!(faster_sum(a.clone(), 5), 13 % 5);

    let b = vec![999, 998, 997];
    assert_eq!(slow_sum(b.clone(), 1000), 994);
    assert_eq!(fast_sum(b.clone(), 1000), 994);
    assert_eq!(faster_sum(b.clone(), 1000), 994);

    let empty: Vec<i32> = vec![];
    assert_eq!(slow_sum(empty.clone(), 7), 0);
    assert_eq!(fast_sum(empty.clone(), 7), 0);
    assert_eq!(faster_sum(empty, 7), 0);
}

#[test]
fn test_sum_loops_agree() {
    assert_eq!(for_sum(0), 0);
    assert_eq!(for_sum(10), 45);
    assert_eq!(unroll_for_sum(10), 45);
    for n in [0usize, 1, 2, 3, 4, 5, 7, 8, 100, 1001] {
        assert_eq!(for_sum(n), unroll_for_sum(n));
        assert_eq!(for_sum(n), n * n.wrapping_sub(1) / 2);
    }
}
