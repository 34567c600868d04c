//! Prime numbers: two tests and a sieve.

use vstd::prelude::*;
use vstd::arithmetic::div_mod::{lemma_fundamental_div_mod, lemma_mod_multiples_basic};

verus! {

/// Whether `n` is prime: at least two, and divisible by no number between
/// two and itself.
pub open spec fn is_prime(n: nat) -> bool {
    n >= 2 && forall|d: nat| 2 <= d < n ==> #[trigger] (n % d) != 0
}

/// Whether no number from two up to `bound`, and below `n`, divides `n`.
pub open spec fn no_divisor_below(n: nat, bound: nat) -> bool {
    forall|d: nat| 2 <= d < bound && d < n ==> #[trigger] (n % d) != 0
}

/// A divisor of a divisor is a divisor.
pub proof fn lemma_divides_transitive(n: nat, d: nat, k: nat)
    requires
        d > 0,
        k > 0,
        n % d == 0,
        d % k == 0,
    ensures
        n % k == 0,
{
    lemma_fundamental_div_mod(n as int, d as int);
    lemma_fundamental_div_mod(d as int, k as int);
    let a = n / d;
    let b = d / k;
    assert(n == (a * b) * k) by (nonlinear_arith)
        requires
            n == d * a,
            d == k * b,
    ;
    lemma_mod_multiples_basic((a * b) as int, k as int);
}

/// A number whose square is above `n` is above the quotient of `n` by it,
/// and the other way round.
pub proof fn lemma_square_above(n: nat, i: nat)
    requires
        i > 0,
    ensures
        i > n / i <==> i * i > n,
{
    lemma_fundamental_div_mod(n as int, i as int);
    let q = n / i;
    let r = n % i;
    if i > q {
        assert(i * i > n) by (nonlinear_arith)
            requires
                n == i * q + r,
                r < i,
                q + 1 <= i,
        ;
    } else {
        assert(i * i <= n) by (nonlinear_arith)
            requires
                n == i * q + r,
                r >= 0,
                i <= q,
        ;
    }
}

/// A number without a divisor up to its square root is prime.
pub proof fn lemma_prime_by_root(n: nat, bound: nat)
    requires
        n >= 2,
        bound * bound > n,
        no_divisor_below(n, bound),
    ensures
        is_prime(n),
{
    assert forall|d: nat| 2 <= d < n implies #[trigger] (n % d) != 0 by {
        if n % d == 0 {
            if d >= bound {
                let e = n / d;
                lemma_fundamental_div_mod(n as int, d as int);
                assert(e >= 2 && e < bound && e < n) by (nonlinear_arith)
                    requires
                        n == d * e,
                        2 <= d < n,
                        d >= bound,
                        bound * bound > n,
                        e >= 0,
                ;
                assert(n == d * e);
                assert(d * e == e * d) by (nonlinear_arith);
                lemma_mod_multiples_basic(d as int, e as int);
                assert(n % e == 0);
            }
        }
    }
}

/// Whether `n` is prime, found by trying two, three and the numbers next
/// to the multiples of six up to the square root of `n`.
pub fn is_prime_basic(n: u64) -> (r: bool)
    ensures
        r == is_prime(n as nat),
{
    if n <= 1 {
        return false;
    }
    if n <= 3 {
        return true;
    }
    if n % 2 == 0 || n % 3 == 0 {
        proof {
            if n % 2 == 0 {
                assert((n as nat) % 2 == 0);
            } else {
                assert((n as nat) % 3 == 0);
            }
        }
        return false;
    }
    let mut i: u64 = 5;
    proof {
        assert forall|d: nat| 2 <= d < 5 && d < n implies #[trigger] ((n as nat) % d) != 0 by {
            if d == 4 {
                if (n as nat) % 4 == 0 {
                    lemma_divides_transitive(n as nat, 4, 2);
                }
            }
        }
    }
    while i <= n / i
        invariant
            5 <= i,
            i % 6 == 5,
            n > 3,
            n % 2 != 0,
            n % 3 != 0,
            no_divisor_below(n as nat, i as nat),
        decreases n + 6 - i,
    {
        proof {
            lemma_square_above(n as nat, i as nat);
            assert(i < 0x1_0000_0000 && i <= n) by (nonlinear_arith)
                requires
                    i * i <= n,
                    i >= 1,
                    n <= 0xffff_ffff_ffff_ffff,
            ;
        }
        if n % i == 0 || n % (i + 2) == 0 {
            proof {
                assert(i * i <= n);
                assert(i + 2 < n) by (nonlinear_arith)
                    requires
                        i * i <= n,
                        i >= 5,
                ;
                if n % i == 0 {
                    assert((n as nat) % (i as nat) == 0);
                } else {
                    assert((n as nat) % ((i + 2) as nat) == 0);
                }
            }
            return false;
        }
        proof {
            assert forall|d: nat| 2 <= d < i + 6 && d < n implies #[trigger] ((n as nat) % d)
                != 0 by {
                if d >= i && (n as nat) % d == 0 {
                    if d == i + 1 || d == i + 3 || d == i + 5 {
                        assert(d % 2 == 0);
                        lemma_divides_transitive(n as nat, d, 2);
                    } else if d == i + 4 {
                        assert(d % 3 == 0);
                        lemma_divides_transitive(n as nat, d, 3);
                    }
                }
            }
        }
        i += 6;
    }
    proof {
        lemma_square_above(n as nat, i as nat);
        lemma_prime_by_root(n as nat, i as nat);
    }
    true
}

/// Whether `n` is prime, found by trying two and the odd numbers up to the
/// square root of `n`.
pub fn is_prime_sqrt(n: u64) -> (r: bool)
    ensures
        r == is_prime(n as nat),
{
    if n <= 1 {
        return false;
    }
    if n == 2 {
        return true;
    }
    if n % 2 == 0 {
        proof {
            assert((n as nat) % 2 == 0);
        }
        return false;
    }
    let mut i: u64 = 3;
    while i <= n / i
        invariant
            3 <= i,
            i % 2 == 1,
            n > 2,
            n % 2 != 0,
            no_divisor_below(n as nat, i as nat),
        decreases n + 2 - i,
    {
        proof {
            lemma_square_above(n as nat, i as nat);
            assert(i < 0x1_0000_0000 && i <= n) by (nonlinear_arith)
                requires
                    i * i <= n,
                    i >= 1,
                    n <= 0xffff_ffff_ffff_ffff,
            ;
        }
        if n % i == 0 {
            proof {
                assert(i < n) by (nonlinear_arith)
                    requires
                        i * i <= n,
                        i >= 3,
                ;
                assert((n as nat) % (i as nat) == 0);
            }
            return false;
        }
        proof {
            assert forall|d: nat| 2 <= d < i + 2 && d < n implies #[trigger] ((n as nat) % d)
                != 0 by {
                if d == i + 1 && (n as nat) % d == 0 {
                    assert(d % 2 == 0);
                    lemma_divides_transitive(n as nat, d, 2);
                }
            }
        }
        i += 2;
    }
    proof {
        lemma_square_above(n as nat, i as nat);
        lemma_prime_by_root(n as nat, i as nat);
    }
    true
}

/// What the sieve holds for every number up to `limit` once the multiples
/// of the numbers below `bound` are struck out.
pub open spec fn sieved(flags: Seq<bool>, limit: nat, bound: nat) -> bool {
    &&& flags.len() == limit + 1
    &&& !flags[0]
    &&& !flags[1]
    &&& forall|k: int|
        2 <= k <= limit ==> (#[trigger] flags[k] <==> no_divisor_below(k as nat, bound))
}

/// The multiple of a number by a smaller factor: its divisors.
proof fn lemma_small_cofactor(k: nat, i: nat)
    requires
        i >= 2,
        k > i,
        k % i == 0,
        k < i * i,
    ensures
        2 <= k / i < i,
        k / i < k,
        k % (k / i) == 0,
{
    lemma_fundamental_div_mod(k as int, i as int);
    let m = k / i;
    assert(2 <= m < i && m < k) by (nonlinear_arith)
        requires
            k == i * m,
            k > i,
            i >= 2,
            k < i * i,
            m >= 0,
    ;
    assert(i * m == m * i) by (nonlinear_arith);
    lemma_mod_multiples_basic(i as int, m as int);
}

/// The primes up to `limit`, in increasing order, found by the sieve of
/// Eratosthenes.
pub fn generate_primes_sieve(limit: usize) -> (primes: Vec<u64>)
    requires
        limit < usize::MAX,
    ensures
        forall|a: int, b: int| 0 <= a < b < primes.len() ==> primes[a] < primes[b],
        forall|a: int| 0 <= a < primes.len() ==> is_prime(primes[a] as nat) && primes[a] <= limit,
        forall|p: nat|
            is_prime(p) && p <= limit ==> exists|a: int|
                0 <= a < primes.len() && primes[a] == p,
{
    if limit < 2 {
        return Vec::new();
    }
    let mut flags: Vec<bool> = vec![true; limit + 1];
    flags[0] = false;
    flags[1] = false;
    let mut i: usize = 2;
    while i <= limit / i
        invariant
            2 <= i,
            2 <= limit < usize::MAX,
            sieved(flags@, limit as nat, i as nat),
        decreases limit - i,
    {
        proof {
            lemma_square_above(limit as nat, i as nat);
            assert(i < limit) by (nonlinear_arith)
                requires
                    i * i <= limit,
                    i >= 2,
            ;
        }
        let ghost before = flags@;
        if flags[i] {
            let mut j: usize = i * i;
            proof {
                lemma_mod_multiples_basic(i as int, i as int);
            }
            loop
                invariant_except_break
                    forall|k: int|
                        2 <= k <= limit ==> (#[trigger] flags[k] <==> before[k] && !(k % (i as int)
                            == 0 && i * i <= k < j)),
                invariant
                    2 <= i < limit < usize::MAX,
                    i * i <= j <= limit,
                    j % i == 0,
                    flags.len() == limit + 1,
                    sieved(before, limit as nat, i as nat),
                    !flags[0],
                    !flags[1],
                ensures
                    flags.len() == limit + 1,
                    !flags[0],
                    !flags[1],
                    forall|k: int|
                        2 <= k <= limit ==> (#[trigger] flags[k] <==> before[k] && !(k % (i as int)
                            == 0 && i * i <= k)),
                decreases limit - j,
            {
                flags[j] = false;
                if limit - j < i {
                    proof {
                        assert forall|k: int| 2 <= k <= limit implies !(#[trigger] (k % (i as int))
                            == 0 && j < k) by {
                            if k % (i as int) == 0 && j < k {
                                lemma_next_multiple(j as int, k, i as int);
                            }
                        }
                    }
                    break ;
                }
                proof {
                    assert forall|k: int| j < k < j + i implies #[trigger] (k % (i as int)) != 0 by {
                        if k % (i as int) == 0 {
                            lemma_next_multiple(j as int, k, i as int);
                        }
                    }
                    vstd::arithmetic::div_mod::lemma_mod_adds(j as int, i as int, i as int);
                    assert((j + i) % (i as int) == 0);
                }
                j += i;
            }
            proof {
                assert forall|k: int| 2 <= k <= limit implies (#[trigger] flags[k]
                    <==> no_divisor_below(k as nat, (i + 1) as nat)) by {
                    lemma_sieve_step(k as nat, i as nat);
                }
            }
        } else {
            proof {
                assert(!no_divisor_below(i as nat, i as nat));
                let d = choose|d: nat| 2 <= d < i && d < i && #[trigger] ((i as nat) % d) == 0;
                assert forall|k: int| 2 <= k <= limit implies (#[trigger] no_divisor_below(
                    k as nat,
                    i as nat,
                ) <==> no_divisor_below(k as nat, (i + 1) as nat)) by {
                    if no_divisor_below(k as nat, i as nat) && i < k && (k as nat) % (i as nat)
                        == 0 {
                        lemma_divides_transitive(k as nat, i as nat, d);
                        assert((k as nat) % d == 0);
                    }
                }
            }
        }
        i += 1;
    }
    let mut primes: Vec<u64> = Vec::new();
    let mut k: usize = 2;
    proof {
        lemma_square_above(limit as nat, i as nat);
    }
    while k <= limit
        invariant
            2 <= k <= limit + 1,
            limit < usize::MAX,
            i * i > limit,
            sieved(flags@, limit as nat, i as nat),
            forall|a: int, b: int| 0 <= a < b < primes.len() ==> primes[a] < primes[b],
            forall|a: int|
                0 <= a < primes.len() ==> is_prime(primes[a] as nat) && primes[a] < k,
            forall|p: nat|
                is_prime(p) && p < k ==> exists|a: int| 0 <= a < primes.len() && primes[a] == p,
        decreases limit + 1 - k,
    {
        proof {
            if no_divisor_below(k as nat, i as nat) {
                assert(i * i > k) by (nonlinear_arith)
                    requires
                        i * i > limit,
                        k <= limit,
                ;
                lemma_prime_by_root(k as nat, i as nat);
            }
            if is_prime(k as nat) {
                assert(no_divisor_below(k as nat, i as nat));
            }
        }
        if flags[k] {
            let ghost before = primes@;
            primes.push(k as u64);
            proof {
                assert forall|p: nat| is_prime(p) && p < k + 1 implies exists|a: int|
                    0 <= a < primes.len() && primes[a] == p by {
                    if p < k {
                        let a = choose|a: int| 0 <= a < before.len() && before[a] == p;
                        assert(primes[a] == p);
                    } else {
                        assert(primes[before.len() as int] == p);
                    }
                }
            }
        }
        k += 1;
    }
    primes
}

/// Between a multiple of `i` and the next there is none.
proof fn lemma_next_multiple(j: int, k: int, i: int)
    requires
        i > 0,
        j % i == 0,
        k % i == 0,
        j < k,
    ensures
        k >= j + i,
{
    lemma_fundamental_div_mod(j, i);
    lemma_fundamental_div_mod(k, i);
    let a = j / i;
    let b = k / i;
    assert(k >= j + i) by (nonlinear_arith)
        requires
            j == i * a,
            k == i * b,
            j < k,
            i > 0,
    ;
}

/// Striking out the multiples of `i` from its square on takes the sieve
/// from `i` to `i + 1`, where `i` itself has no divisor.
proof fn lemma_sieve_step(k: nat, i: nat)
    requires
        i >= 2,
        k >= 2,
    ensures
        (no_divisor_below(k, i) && !(k % i == 0 && i * i <= k)) <==> no_divisor_below(k, i + 1),
{
    if no_divisor_below(k, i) && !(k % i == 0 && i * i <= k) {
        if i < k && k % i == 0 {
            lemma_small_cofactor(k, i);
            assert(k % (k / i) == 0);
        }
        assert forall|d: nat| 2 <= d < i + 1 && d < k implies #[trigger] (k % d) != 0 by {
            if d == i {
            }
        }
    }
    if no_divisor_below(k, i + 1) {
        if k % i == 0 && i * i <= k {
            assert(i < k) by (nonlinear_arith)
                requires
                    i * i <= k,
                    i >= 2,
            ;
        }
    }
}

/// The product of the first `upto` numbers of `factors`.
pub open spec fn product(factors: Seq<u64>, upto: int) -> nat
    decreases upto,
{
    if upto <= 0 || upto > factors.len() {
        1
    } else {
        product(factors, upto - 1) * factors[upto - 1] as nat
    }
}

/// Whether no number from two up to `bound` divides `n`.
pub open spec fn unreduced(n: nat, bound: nat) -> bool {
    forall|k: nat| 2 <= k < bound ==> #[trigger] (n % k) != 0
}

/// A divisor of a quotient divides what was divided.
proof fn lemma_divides_quotient(n: nat, d: nat, k: nat)
    requires
        d > 0,
        k > 0,
        n % d == 0,
        (n / d) % k == 0,
    ensures
        n % k == 0,
{
    lemma_fundamental_div_mod(n as int, d as int);
    lemma_fundamental_div_mod((n / d) as int, k as int);
    let q = n / d;
    let m = q / k;
    assert(n == (d * m) * k) by (nonlinear_arith)
        requires
            n == d * q,
            q == k * m,
    ;
    lemma_mod_multiples_basic((d * m) as int, k as int);
}

/// The product of a list that one number was added to.
proof fn lemma_product_push(factors: Seq<u64>, d: u64)
    ensures
        product(factors.push(d), factors.len() as int + 1) == product(
            factors,
            factors.len() as int,
        ) * d,
{
    lemma_product_same(factors, factors.push(d), factors.len() as int);
}

proof fn lemma_product_same(a: Seq<u64>, b: Seq<u64>, upto: int)
    requires
        0 <= upto <= a.len(),
        upto <= b.len(),
        forall|i: int| 0 <= i < upto ==> a[i] == b[i],
    ensures
        product(a, upto) == product(b, upto),
    decreases upto,
{
    if upto > 0 {
        lemma_product_same(a, b, upto - 1);
    }
}

/// The prime factors of `n`, each as often as it divides `n`, from the
/// least to the greatest.
pub fn prime_factors(n: u64) -> (factors: Vec<u64>)
    requires
        n >= 1,
    ensures
        product(factors@, factors.len() as int) == n,
        forall|i: int| 0 <= i < factors.len() ==> is_prime(#[trigger] factors[i] as nat),
        forall|i: int, j: int| 0 <= i <= j < factors.len() ==> factors[i] <= factors[j],
{
    let mut factors: Vec<u64> = Vec::new();
    let mut rest: u64 = n;
    let mut d: u64 = 2;
    proof {
        assert(rest * product(factors@, 0) == n) by (nonlinear_arith)
            requires
                rest == n,
                product(factors@, 0) == 1,
        ;
    }
    while d <= rest / d
        invariant
            2 <= d,
            1 <= rest <= n,
            rest * product(factors@, factors.len() as int) == n,
            unreduced(rest as nat, d as nat),
            forall|i: int| 0 <= i < factors.len() ==> is_prime(#[trigger] factors[i] as nat),
            forall|i: int| 0 <= i < factors.len() ==> (#[trigger] factors[i]) < d,
            forall|i: int, j: int| 0 <= i <= j < factors.len() ==> factors[i] <= factors[j],
        decreases n + 2 - d,
    {
        proof {
            lemma_square_above(rest as nat, d as nat);
            assert(d < 0x1_0000_0000 && d <= rest) by (nonlinear_arith)
                requires
                    d * d <= rest,
                    d >= 1,
                    rest <= 0xffff_ffff_ffff_ffff,
            ;
        }
        while rest % d == 0
            invariant
                2 <= d <= n,
                d < 0x1_0000_0000,
                1 <= rest <= n,
                rest * product(factors@, factors.len() as int) == n,
                unreduced(rest as nat, d as nat),
                forall|i: int| 0 <= i < factors.len() ==> is_prime(#[trigger] factors[i] as nat),
                forall|i: int| 0 <= i < factors.len() ==> (#[trigger] factors[i]) <= d,
                forall|i: int, j: int| 0 <= i <= j < factors.len() ==> factors[i] <= factors[j],
            decreases rest,
        {
            proof {
                let q = rest / d;
                lemma_fundamental_div_mod(rest as int, d as int);
                assert(q >= 1 && q < rest) by (nonlinear_arith)
                    requires
                        rest == d * q,
                        d >= 2,
                        rest >= 1,
                        q >= 0,
                ;
                assert forall|k: nat| 2 <= k < d implies #[trigger] ((d as nat) % k) != 0 by {
                    if (d as nat) % k == 0 {
                        lemma_divides_transitive(rest as nat, d as nat, k);
                    }
                }
                assert(is_prime(d as nat));
                assert forall|k: nat| 2 <= k < d implies #[trigger] ((q as nat) % k) != 0 by {
                    if (q as nat) % k == 0 {
                        lemma_divides_quotient(rest as nat, d as nat, k);
                    }
                }
                lemma_product_push(factors@, d);
                let p = product(factors@, factors.len() as int);
                assert(q * (p * d) == n) by (nonlinear_arith)
                    requires
                        rest == d * q,
                        rest * p == n,
                ;
            }
            factors.push(d);
            rest = rest / d;
        }
        d += 1;
    }
    if rest > 1 {
        proof {
            lemma_square_above(rest as nat, d as nat);
            assert(no_divisor_below(rest as nat, d as nat));
            lemma_prime_by_root(rest as nat, d as nat);
            if rest < d {
                assert((rest as nat) % (rest as nat) == 0) by (nonlinear_arith)
                    requires
                        rest >= 1,
                ;
            }
            lemma_product_push(factors@, rest);
            let p = product(factors@, factors.len() as int);
            assert(p * rest == rest * p) by (nonlinear_arith);
        }
        factors.push(rest);
    }
    factors
}

} // verus!
