//! Greatest common divisors and least common multiples.

use vstd::prelude::*;
use vstd::arithmetic::div_mod::{lemma_fundamental_div_mod, lemma_mod_multiples_basic};

verus! {

/// The greatest common divisor of `a` and `b`, by Euclid's rule: that of
/// `b` and the remainder of `a` by `b`, and `a` itself where `b` is zero.
pub open spec fn gcd(a: nat, b: nat) -> nat
    decreases b,
{
    if b == 0 {
        a
    } else {
        gcd(b, a % b)
    }
}

/// A divisor of two numbers divides the remainder of one by the other, and
/// a divisor of a number and of a remainder by it divides what was divided.
proof fn lemma_divides_remainder(a: nat, b: nat, d: nat)
    requires
        b > 0,
        d > 0,
        b % d == 0,
    ensures
        a % d == 0 <==> (a % b) % d == 0,
{
    let q = a / b;
    let r = a % b;
    lemma_fundamental_div_mod(a as int, b as int);
    lemma_fundamental_div_mod(b as int, d as int);
    lemma_fundamental_div_mod(a as int, d as int);
    lemma_fundamental_div_mod(r as int, d as int);
    let kb = b / d;
    if a % d == 0 {
        let ka = a / d;
        assert(r == (ka - kb * q) * d) by (nonlinear_arith)
            requires
                a == b * q + r,
                a == d * ka,
                b == d * kb,
        ;
        lemma_mod_multiples_basic(ka - kb * q, d as int);
    }
    if r % d == 0 {
        let kr = r / d;
        assert(a == (kb * q + kr) * d) by (nonlinear_arith)
            requires
                a == b * q + r,
                r == d * kr,
                b == d * kb,
        ;
        lemma_mod_multiples_basic((kb * q + kr) as int, d as int);
    }
}

/// The greatest common divisor divides both numbers.
pub proof fn lemma_gcd_divides(a: nat, b: nat)
    requires
        a > 0 || b > 0,
    ensures
        gcd(a, b) > 0,
        a % gcd(a, b) == 0,
        b % gcd(a, b) == 0,
    decreases b,
{
    if b == 0 {
        assert(a % a == 0) by (nonlinear_arith)
            requires
                a > 0,
        ;
    } else {
        lemma_gcd_divides(b, a % b);
        lemma_divides_remainder(a, b, gcd(a, b));
    }
}

/// Every common divisor of two numbers divides their greatest common
/// divisor.
pub proof fn lemma_gcd_greatest(a: nat, b: nat, d: nat)
    requires
        d > 0,
        a % d == 0,
        b % d == 0,
    ensures
        gcd(a, b) % d == 0,
    decreases b,
{
    if b != 0 {
        lemma_divides_remainder(a, b, d);
        lemma_gcd_greatest(b, a % b, d);
    }
}

/// The greatest common divisor of `a` and `b`, by recursion.
pub fn gcd_recursive(a: u64, b: u64) -> (r: u64)
    ensures
        r == gcd(a as nat, b as nat),
    decreases b,
{
    if b == 0 {
        a
    } else {
        gcd_recursive(b, a % b)
    }
}

/// The greatest common divisor of `a` and `b`, by a loop.
pub fn gcd_iterative(a: u64, b: u64) -> (r: u64)
    ensures
        r == gcd(a as nat, b as nat),
{
    let mut x = a;
    let mut y = b;
    while y != 0
        invariant
            gcd(x as nat, y as nat) == gcd(a as nat, b as nat),
        decreases y,
    {
        let temp = y;
        y = x % y;
        x = temp;
    }
    x
}

/// The product of two numbers is the product of their greatest common
/// divisor and the quotient of the product by it.
pub proof fn lemma_gcd_times_lcm(a: nat, b: nat)
    requires
        a > 0,
        b > 0,
    ensures
        gcd(a, b) * ((a * b) / gcd(a, b)) == a * b,
        ((a * b) / gcd(a, b)) % a == 0,
        ((a * b) / gcd(a, b)) % b == 0,
{
    lemma_gcd_divides(a, b);
    let g = gcd(a, b);
    let ka = a / g;
    let kb = b / g;
    lemma_fundamental_div_mod(a as int, g as int);
    lemma_fundamental_div_mod(b as int, g as int);
    assert(a * b == (ka * b) * g) by (nonlinear_arith)
        requires
            a == g * ka,
    ;
    assert(a * b == (kb * a) * g) by (nonlinear_arith)
        requires
            b == g * kb,
    ;
    vstd::arithmetic::div_mod::lemma_div_multiples_vanish((ka * b) as int, g as int);
    assert((g * (ka * b)) == (ka * b) * g) by (nonlinear_arith);
    assert((a * b) / g == ka * b);
    assert(ka * b == kb * a) by (nonlinear_arith)
        requires
            a * b == (ka * b) * g,
            a * b == (kb * a) * g,
            g > 0,
    ;
    assert(g * (ka * b) == a * b) by (nonlinear_arith)
        requires
            a * b == (ka * b) * g,
    ;
    lemma_mod_multiples_basic(ka as int, b as int);
    lemma_mod_multiples_basic(kb as int, a as int);
}

/// The least common multiple of `a` and `b`: their product divided by
/// their greatest common divisor, and zero where one of them is zero.
pub fn lcm(a: u64, b: u64) -> (r: u64)
    requires
        a * b <= u64::MAX,
    ensures
        r == if a == 0 || b == 0 {
            0
        } else {
            (a * b) / (gcd(a as nat, b as nat) as int)
        },
        a != 0 && b != 0 ==> r * gcd(a as nat, b as nat) == a * b && r % a == 0 && r % b == 0,
{
    if a == 0 || b == 0 {
        0
    } else {
        proof {
            lemma_gcd_divides(a as nat, b as nat);
            lemma_gcd_times_lcm(a as nat, b as nat);
            let g = gcd(a as nat, b as nat);
            let m = (a as nat * b as nat) / g;
            assert(g * m == m * g) by (nonlinear_arith);
        }
        (a * b) / gcd_recursive(a, b)
    }
}

/// The absolute value of `x`.
pub open spec fn magnitude(x: int) -> int {
    if x < 0 {
        -x
    } else {
        x
    }
}

/// The larger of one and the quotient of `a` by `b`.
pub open spec fn quotient_or_one(a: int, b: int) -> int {
    if b > 0 && a / b >= 1 {
        a / b
    } else {
        1
    }
}

/// The two numbers that the extended rule of Euclid finds for `a` and `b`:
/// zero and one where `a` is zero; else, with `x` and `y` the numbers for
/// the remainder of `b` by `a` and for `a`, the number `y` less `x` times
/// the quotient of `b` by `a`, and `x`.
pub open spec fn bezout(a: nat, b: nat) -> (int, int)
    decreases a,
{
    if a == 0 {
        (0, 1)
    } else {
        let (x, y) = bezout(b % a, a);
        (y - (b / a) * x, x)
    }
}

/// The greatest common divisor `g` of `a` and `b` with two numbers `x` and
/// `y` such that `a * x + b * y == g`.
pub fn gcd_extended(a: i64, b: i64) -> (r: (i64, i64, i64))
    requires
        0 <= a,
        0 <= b,
    ensures
        r.0 == gcd(b as nat, a as nat),
        (r.1 as int, r.2 as int) == bezout(a as nat, b as nat),
        a * r.1 + b * r.2 == r.0,
        a == 0 ==> r == (b, 0i64, 1i64),
        magnitude(r.1 as int) <= quotient_or_one(b as int, r.0 as int),
        magnitude(r.2 as int) <= quotient_or_one(a as int, r.0 as int),
    decreases a,
{
    if a == 0 {
        (b, 0, 1)
    } else {
        let (g, x1, y1) = gcd_extended(b % a, a);
        let q = b / a;
        let m = b % a;
        proof {
            lemma_gcd_divides(a as nat, m as nat);
            lemma_fundamental_div_mod(b as int, a as int);
            lemma_fundamental_div_mod(a as int, g as int);
            lemma_fundamental_div_mod(m as int, g as int);
            let ka = a as int / g as int;
            let km = m as int / g as int;
            assert(ka >= 1) by (nonlinear_arith)
                requires
                    a == g * ka,
                    a > 0,
                    g > 0,
            ;
            // |x1| <= a/g and |y1| <= max(1, m/g), so that |y1 - q*x1| <= b/g
            assert(b == (km + q * ka) * g) by (nonlinear_arith)
                requires
                    b == a * q + m,
                    a == g * ka,
                    m == g * km,
            ;
            vstd::arithmetic::div_mod::lemma_div_multiples_vanish(km + q * ka, g as int);
            assert(((km + q * ka) * g) == g * (km + q * ka)) by (nonlinear_arith);
            assert(b as int / g as int == km + q * ka);
            if m == 0 {
                assert(x1 == 0 && y1 == 1);
                assert(km == 0);
            } else {
                assert(km >= 1) by (nonlinear_arith)
                    requires
                        m == g * km,
                        m > 0,
                        g > 0,
                ;
                assert(magnitude(q * x1) <= q * ka) by (nonlinear_arith)
                    requires
                        magnitude(x1 as int) <= ka,
                        q >= 0,
                ;
            }
            assert(a * (y1 - q * x1) + b * x1 == m * x1 + a * y1) by (nonlinear_arith)
                requires
                    b == a * q + m,
            ;
            assert(q * ka <= b) by (nonlinear_arith)
                requires
                    b == (km + q * ka) * g,
                    g >= 1,
                    km >= 0,
                    q * ka >= 0,
            ;
            assert(magnitude(q * x1) <= q * ka) by (nonlinear_arith)
                requires
                    magnitude(x1 as int) <= ka,
                    q >= 0,
            ;
        }
        let x = y1 - q * x1;
        let y = x1;
        (g, x, y)
    }
}

/// Whether `a` and `b` have no common divisor but one.
pub fn are_coprime(a: u64, b: u64) -> (r: bool)
    ensures
        r == (gcd(a as nat, b as nat) == 1),
{
    gcd_recursive(a, b) == 1
}

/// The fraction `numerator / denominator` in lowest terms: both divided by
/// their greatest common divisor.
pub fn simplify_fraction(numerator: u64, denominator: u64) -> (r: (u64, u64))
    requires
        numerator != 0 || denominator != 0,
    ensures
        r.0 * gcd(numerator as nat, denominator as nat) == numerator,
        r.1 * gcd(numerator as nat, denominator as nat) == denominator,
{
    let common_divisor = gcd_recursive(numerator, denominator);
    proof {
        lemma_gcd_divides(numerator as nat, denominator as nat);
        lemma_fundamental_div_mod(numerator as int, common_divisor as int);
        lemma_fundamental_div_mod(denominator as int, common_divisor as int);
        assert((numerator / common_divisor) * common_divisor == common_divisor * (numerator
            / common_divisor)) by (nonlinear_arith);
        assert((denominator / common_divisor) * common_divisor == common_divisor * (denominator
            / common_divisor)) by (nonlinear_arith);
    }
    (numerator / common_divisor, denominator / common_divisor)
}

} // verus!
