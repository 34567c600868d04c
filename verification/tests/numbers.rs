use toolbox::factorial::{factorial_iterative, factorial_recursive};
use toolbox::fibonacci::{fibonacci_iterative, fibonacci_nth, fibonacci_vector};
use toolbox::gcd_lcm::{
    are_coprime, gcd_extended, gcd_iterative, gcd_recursive, lcm, simplify_fraction,
};

#[test]
fn factorials_agree() {
    let expected: [u64; 6] = [1, 1, 2, 6, 24, 120];
    for (n, value) in expected.iter().enumerate() {
        assert_eq!(factorial_recursive(n as u64), *value);
        assert_eq!(factorial_iterative(n as u64), *value);
    }
    assert_eq!(factorial_recursive(20), 2432902008176640000);
    assert_eq!(factorial_iterative(20), 2432902008176640000);
}

#[test]
fn fibonacci_lists() {
    assert_eq!(fibonacci_vector(0), Vec::<u64>::new());
    assert_eq!(fibonacci_vector(1), vec![0]);
    assert_eq!(fibonacci_vector(10), vec![0, 1, 1, 2, 3, 5, 8, 13, 21, 34]);
    assert_eq!(fibonacci_iterative(0), Vec::<u64>::new());
    assert_eq!(fibonacci_iterative(1), vec![0]);
    assert_eq!(fibonacci_iterative(2), vec![0, 1]);
    assert_eq!(fibonacci_iterative(94), fibonacci_vector(94));
    assert_eq!(fibonacci_vector(94)[93], 12200160415121876738);
}

#[test]
fn fibonacci_by_index() {
    assert_eq!(fibonacci_nth(0), 0);
    assert_eq!(fibonacci_nth(1), 1);
    assert_eq!(fibonacci_nth(2), 1);
    assert_eq!(fibonacci_nth(50), 12586269025);
    assert_eq!(fibonacci_nth(93), 12200160415121876738);
}

#[test]
fn greatest_common_divisors() {
    for (a, b, g) in [(48u64, 18u64, 6u64), (18, 48, 6), (17, 5, 1), (0, 9, 9), (9, 0, 9), (0, 0, 0)]
    {
        assert_eq!(gcd_recursive(a, b), g);
        assert_eq!(gcd_iterative(a, b), g);
    }
    assert_eq!(gcd_recursive(u64::MAX, u64::MAX - 1), 1);
}

#[test]
fn least_common_multiples() {
    assert_eq!(lcm(4, 6), 12);
    assert_eq!(lcm(21, 6), 42);
    assert_eq!(lcm(0, 6), 0);
    assert_eq!(lcm(6, 0), 0);
    assert_eq!(lcm(7, 7), 7);
    assert_eq!(48 * 18, gcd_recursive(48, 18) * lcm(48, 18));
}

#[test]
fn extended_gcd_gives_bezout_numbers() {
    for (a, b) in [(48i64, 18i64), (18, 48), (17, 5), (0, 9), (9, 0), (1, 1), (240, 46)] {
        let (g, x, y) = gcd_extended(a, b);
        assert_eq!(g as u64, gcd_recursive(a as u64, b as u64));
        assert_eq!(a * x + b * y, g);
    }
    assert_eq!(gcd_extended(0, 9), (9, 0, 1));
    assert_eq!(gcd_extended(240, 46), (2, -9, 47));
}

#[test]
fn coprime_and_fractions() {
    assert!(are_coprime(17, 5));
    assert!(!are_coprime(48, 18));
    assert!(are_coprime(1, 0));
    assert!(!are_coprime(0, 0));
    assert_eq!(simplify_fraction(48, 18), (8, 3));
    assert_eq!(simplify_fraction(0, 5), (0, 1));
    assert_eq!(simplify_fraction(7, 0), (1, 0));
    assert_eq!(simplify_fraction(17, 5), (17, 5));
}
