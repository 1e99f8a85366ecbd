use raindeer::numeric::integer_sqrt;

#[test]
fn integer_sqrt_rounds_down() {
    assert_eq!(integer_sqrt(0), 0);
    assert_eq!(integer_sqrt(1), 1);
    assert_eq!(integer_sqrt(2), 1);
    assert_eq!(integer_sqrt(3), 1);
    assert_eq!(integer_sqrt(4), 2);
    assert_eq!(integer_sqrt(99), 9);
    assert_eq!(integer_sqrt(100), 10);
    assert_eq!(integer_sqrt(101), 10);
    assert_eq!(integer_sqrt((1u128 << 64) - 1), (1u128 << 32) - 1);
    assert_eq!(integer_sqrt(1u128 << 64), 1u128 << 32);
    assert_eq!(integer_sqrt(u128::MAX), (1u128 << 64) - 1);
}

#[test]
fn integer_sqrt_brackets_its_argument() {
    let mut n: u128 = 1;
    for _ in 0..120 {
        let r = integer_sqrt(n);
        assert!(r * r <= n);
        assert!((r + 1) * (r + 1) > n);
        n = n * 2 + 1;
    }
}
