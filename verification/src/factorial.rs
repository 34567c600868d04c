//! Factorials, by recursion and by a loop.

use vstd::prelude::*;

verus! {

/// The product of the numbers from one to `n`; one for zero.
pub open spec fn factorial(n: nat) -> nat
    decreases n,
{
    if n <= 1 {
        1
    } else {
        n * factorial((n - 1) as nat)
    }
}

/// The factorial of twenty, the largest that sixty-four bits hold.
pub proof fn lemma_factorial_of_twenty()
    ensures
        factorial(20) == 2432902008176640000,
{
    assert(factorial(1) == 1);
    assert(factorial(2) == 2);
    assert(factorial(3) == 6);
    assert(factorial(4) == 24);
    assert(factorial(5) == 120);
    assert(factorial(6) == 720);
    assert(factorial(7) == 5040);
    assert(factorial(8) == 40320);
    assert(factorial(9) == 362880);
    assert(factorial(10) == 3628800);
    assert(factorial(11) == 39916800);
    assert(factorial(12) == 479001600);
    assert(factorial(13) == 6227020800);
    assert(factorial(14) == 87178291200);
    assert(factorial(15) == 1307674368000);
    assert(factorial(16) == 20922789888000);
    assert(factorial(17) == 355687428096000);
    assert(factorial(18) == 6402373705728000);
    assert(factorial(19) == 121645100408832000);
    assert(factorial(20) == 2432902008176640000);
}

/// The factorial grows with its argument.
pub proof fn lemma_factorial_grows(i: nat, j: nat)
    requires
        i <= j,
    ensures
        1 <= factorial(i) <= factorial(j),
    decreases j,
{
    if j > 1 {
        if i < j {
            lemma_factorial_grows(i, (j - 1) as nat);
            assert(factorial((j - 1) as nat) <= j * factorial((j - 1) as nat)) by (nonlinear_arith)
                requires
                    j >= 1,
            ;
        } else {
            lemma_factorial_grows((i - 1) as nat, (j - 1) as nat);
            assert(1 <= j * factorial((j - 1) as nat)) by (nonlinear_arith)
                requires
                    j >= 1,
                    factorial((j - 1) as nat) >= 1,
            ;
        }
    }
}

/// The factorial of `n`, by recursion.
pub fn factorial_recursive(n: u64) -> (r: u64)
    requires
        n <= 20,
    ensures
        r == factorial(n as nat),
    decreases n,
{
    if n <= 1 {
        1
    } else {
        proof {
            lemma_factorial_of_twenty();
            lemma_factorial_grows(n as nat, 20);
        }
        n * factorial_recursive(n - 1)
    }
}

/// The factorial of `n`, by a loop.
pub fn factorial_iterative(n: u64) -> (r: u64)
    requires
        n <= 20,
    ensures
        r == factorial(n as nat),
{
    let mut result: u64 = 1;
    let mut i: u64 = 2;
    while i <= n
        invariant
            2 <= i,
            n >= 2 ==> i <= n + 1,
            n < 2 ==> i == 2,
            n <= 20,
            result == factorial((i - 1) as nat),
        decreases n + 1 - i,
    {
        proof {
            lemma_factorial_of_twenty();
            lemma_factorial_grows(i as nat, 20);
            assert(factorial(i as nat) == i * factorial((i - 1) as nat));
            assert(result * i == i * result) by (nonlinear_arith);
        }
        result = result * i;
        i += 1;
    }
    proof {
        if n < 2 {
            assert(factorial(n as nat) == 1);
        }
    }
    result
}

} // verus!
