//! The Fibonacci numbers, as a list and one by one.

use vstd::prelude::*;

verus! {

/// The Fibonacci number of index `n`: 0, 1, 1, 2, 3, 5, ...
pub open spec fn fib(n: nat) -> nat
    decreases n,
{
    if n == 0 {
        0
    } else if n == 1 {
        1
    } else {
        fib((n - 1) as nat) + fib((n - 2) as nat)
    }
}

/// The Fibonacci number of index 93, the largest that sixty-four bits hold.
pub proof fn lemma_fib_of_93()
    ensures
        fib(93) == 12200160415121876738,
        fib(92) == 7540113804746346429,
{
    assert(fib(0) == 0);
    assert(fib(1) == 1);
    assert(fib(2) == 1);
    assert(fib(3) == 2);
    assert(fib(4) == 3);
    assert(fib(5) == 5);
    assert(fib(6) == 8);
    assert(fib(7) == 13);
    assert(fib(8) == 21);
    assert(fib(9) == 34);
    assert(fib(10) == 55);
    assert(fib(11) == 89);
    assert(fib(12) == 144);
    assert(fib(13) == 233);
    assert(fib(14) == 377);
    assert(fib(15) == 610);
    assert(fib(16) == 987);
    assert(fib(17) == 1597);
    assert(fib(18) == 2584);
    assert(fib(19) == 4181);
    assert(fib(20) == 6765);
    assert(fib(21) == 10946);
    assert(fib(22) == 17711);
    assert(fib(23) == 28657);
    assert(fib(24) == 46368);
    assert(fib(25) == 75025);
    assert(fib(26) == 121393);
    assert(fib(27) == 196418);
    assert(fib(28) == 317811);
    assert(fib(29) == 514229);
    assert(fib(30) == 832040);
    assert(fib(31) == 1346269);
    assert(fib(32) == 2178309);
    assert(fib(33) == 3524578);
    assert(fib(34) == 5702887);
    assert(fib(35) == 9227465);
    assert(fib(36) == 14930352);
    assert(fib(37) == 24157817);
    assert(fib(38) == 39088169);
    assert(fib(39) == 63245986);
    assert(fib(40) == 102334155);
    assert(fib(41) == 165580141);
    assert(fib(42) == 267914296);
    assert(fib(43) == 433494437);
    assert(fib(44) == 701408733);
    assert(fib(45) == 1134903170);
    assert(fib(46) == 1836311903);
    assert(fib(47) == 2971215073);
    assert(fib(48) == 4807526976);
    assert(fib(49) == 7778742049);
    assert(fib(50) == 12586269025);
    assert(fib(51) == 20365011074);
    assert(fib(52) == 32951280099);
    assert(fib(53) == 53316291173);
    assert(fib(54) == 86267571272);
    assert(fib(55) == 139583862445);
    assert(fib(56) == 225851433717);
    assert(fib(57) == 365435296162);
    assert(fib(58) == 591286729879);
    assert(fib(59) == 956722026041);
    assert(fib(60) == 1548008755920);
    assert(fib(61) == 2504730781961);
    assert(fib(62) == 4052739537881);
    assert(fib(63) == 6557470319842);
    assert(fib(64) == 10610209857723);
    assert(fib(65) == 17167680177565);
    assert(fib(66) == 27777890035288);
    assert(fib(67) == 44945570212853);
    assert(fib(68) == 72723460248141);
    assert(fib(69) == 117669030460994);
    assert(fib(70) == 190392490709135);
    assert(fib(71) == 308061521170129);
    assert(fib(72) == 498454011879264);
    assert(fib(73) == 806515533049393);
    assert(fib(74) == 1304969544928657);
    assert(fib(75) == 2111485077978050);
    assert(fib(76) == 3416454622906707);
    assert(fib(77) == 5527939700884757);
    assert(fib(78) == 8944394323791464);
    assert(fib(79) == 14472334024676221);
    assert(fib(80) == 23416728348467685);
    assert(fib(81) == 37889062373143906);
    assert(fib(82) == 61305790721611591);
    assert(fib(83) == 99194853094755497);
    assert(fib(84) == 160500643816367088);
    assert(fib(85) == 259695496911122585);
    assert(fib(86) == 420196140727489673);
    assert(fib(87) == 679891637638612258);
    assert(fib(88) == 1100087778366101931);
    assert(fib(89) == 1779979416004714189);
    assert(fib(90) == 2880067194370816120);
    assert(fib(91) == 4660046610375530309);
    assert(fib(92) == 7540113804746346429);
    assert(fib(93) == 12200160415121876738);
}

/// The Fibonacci numbers grow with their index.
pub proof fn lemma_fib_grows(i: nat, j: nat)
    requires
        i <= j,
    ensures
        fib(i) <= fib(j),
    decreases j,
{
    if i < j {
        lemma_fib_grows(i, (j - 1) as nat);
        if j >= 2 {
            assert(fib(j) == fib((j - 1) as nat) + fib((j - 2) as nat));
        }
    }
}

/// The first `n` Fibonacci numbers, each taken from the two before it in
/// the list.
pub fn fibonacci_vector(n: usize) -> (v: Vec<u64>)
    requires
        n <= 94,
    ensures
        v.len() == n,
        forall|i: int| 0 <= i < n ==> v[i] == fib(i as nat),
{
    if n == 0 {
        return Vec::new();
    } else if n == 1 {
        return vec![0];
    }
    let mut v: Vec<u64> = vec![0, 1];
    let mut i: usize = 2;
    while i < n
        invariant
            2 <= i <= n <= 94,
            v.len() == i,
            forall|j: int| 0 <= j < i ==> v[j] == fib(j as nat),
        decreases n - i,
    {
        proof {
            lemma_fib_of_93();
            lemma_fib_grows(i as nat, 93);
        }
        let next = v[i - 1] + v[i - 2];
        v.push(next);
        i += 1;
    }
    v
}

/// The first `n` Fibonacci numbers, each taken from two running values.
pub fn fibonacci_iterative(n: usize) -> (v: Vec<u64>)
    requires
        n <= 94,
    ensures
        v.len() == n,
        forall|i: int| 0 <= i < n ==> v[i] == fib(i as nat),
{
    if n == 0 {
        return Vec::new();
    } else if n == 1 {
        return vec![0];
    }
    let mut result: Vec<u64> = Vec::with_capacity(n);
    result.push(0);
    result.push(1);
    let mut a: u64 = 0;
    let mut b: u64 = 1;
    let mut i: usize = 2;
    while i < n
        invariant
            2 <= i <= n <= 94,
            result.len() == i,
            a == fib((i - 2) as nat),
            b == fib((i - 1) as nat),
            forall|j: int| 0 <= j < i ==> result[j] == fib(j as nat),
        decreases n - i,
    {
        proof {
            lemma_fib_of_93();
            lemma_fib_grows(i as nat, 93);
        }
        let next = a + b;
        result.push(next);
        a = b;
        b = next;
        i += 1;
    }
    result
}

/// The Fibonacci number of index `n`.
pub fn fibonacci_nth(n: u32) -> (r: u64)
    requires
        n <= 93,
    ensures
        r == fib(n as nat),
{
    if n == 0 {
        return 0;
    } else if n == 1 {
        return 1;
    }
    let mut a: u64 = 0;
    let mut b: u64 = 1;
    let mut i: u32 = 2;
    while i <= n
        invariant
            2 <= i <= n + 1,
            n <= 93,
            a == fib((i - 2) as nat),
            b == fib((i - 1) as nat),
        decreases n + 1 - i,
    {
        proof {
            lemma_fib_of_93();
            lemma_fib_grows(i as nat, 93);
        }
        let next = a + b;
        a = b;
        b = next;
        i += 1;
    }
    b
}

} // verus!
