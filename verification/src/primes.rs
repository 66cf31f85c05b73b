//! The prime table: the ordered sequence of the first `NUM_PRIMES` primes,
//! shared by every backing width, with proofs that each entry is prime and
//! that the table is strictly increasing.

use vstd::prelude::*;

verus! {

use crate::arith::divides;
use crate::arith::is_prime;
use crate::arith::lemma_divides_iff_mod_zero;
use crate::NUM_PRIMES;

/// The prime at position `i` of the table (zero when `i` is out of range).
pub open spec fn nth_prime(i: int) -> nat {
    if i == 0 {
        2
    } else if i == 1 {
        3
    } else if i == 2 {
        5
    } else if i == 3 {
        7
    } else if i == 4 {
        11
    } else if i == 5 {
        13
    } else if i == 6 {
        17
    } else if i == 7 {
        19
    } else if i == 8 {
        23
    } else if i == 9 {
        29
    } else if i == 10 {
        31
    } else if i == 11 {
        37
    } else if i == 12 {
        41
    } else if i == 13 {
        43
    } else if i == 14 {
        47
    } else if i == 15 {
        53
    } else if i == 16 {
        59
    } else if i == 17 {
        61
    } else if i == 18 {
        67
    } else if i == 19 {
        71
    } else if i == 20 {
        73
    } else if i == 21 {
        79
    } else if i == 22 {
        83
    } else if i == 23 {
        89
    } else if i == 24 {
        97
    } else if i == 25 {
        101
    } else if i == 26 {
        103
    } else if i == 27 {
        107
    } else if i == 28 {
        109
    } else if i == 29 {
        113
    } else if i == 30 {
        127
    } else if i == 31 {
        131
    } else {
        0
    }
}

/// Looks up the prime at position `i` of the table.
pub fn prime_entry(i: usize) -> (r: u8)
    requires
        i < NUM_PRIMES,
    ensures
        r as nat == nth_prime(i as int),
{
    if i == 0 {
        2
    } else if i == 1 {
        3
    } else if i == 2 {
        5
    } else if i == 3 {
        7
    } else if i == 4 {
        11
    } else if i == 5 {
        13
    } else if i == 6 {
        17
    } else if i == 7 {
        19
    } else if i == 8 {
        23
    } else if i == 9 {
        29
    } else if i == 10 {
        31
    } else if i == 11 {
        37
    } else if i == 12 {
        41
    } else if i == 13 {
        43
    } else if i == 14 {
        47
    } else if i == 15 {
        53
    } else if i == 16 {
        59
    } else if i == 17 {
        61
    } else if i == 18 {
        67
    } else if i == 19 {
        71
    } else if i == 20 {
        73
    } else if i == 21 {
        79
    } else if i == 22 {
        83
    } else if i == 23 {
        89
    } else if i == 24 {
        97
    } else if i == 25 {
        101
    } else if i == 26 {
        103
    } else if i == 27 {
        107
    } else if i == 28 {
        109
    } else if i == 29 {
        113
    } else if i == 30 {
        127
    } else {
        131
    }
}

/// No number from two through `d` divides `n`.
pub open spec fn no_divisor_through(n: nat, d: nat) -> bool
    decreases d,
{
    d < 2 || (n % d != 0 && no_divisor_through(n, (d - 1) as nat))
}

proof fn lemma_no_divisor_through(n: nat, d: nat)
    requires
        no_divisor_through(n, d),
    ensures
        forall|e: nat| 2 <= e <= d ==> #[trigger] (n % e) != 0,
    decreases d,
{
    if d >= 2 {
        lemma_no_divisor_through(n, (d - 1) as nat);
    }
}

/// Trial division up to the square root certifies primality: a composite
/// number has a divisor no larger than its square root.
proof fn lemma_prime_by_trial_division(n: nat, s: nat)
    requires
        n >= 2,
        (s + 1) * (s + 1) > n,
        forall|e: nat| 2 <= e <= s ==> #[trigger] (n % e) != 0,
    ensures
        is_prime(n),
{
    assert forall|d: int| 2 <= d < n implies !divides(d, n as int) by {
        if divides(d, n as int) {
            let k = choose|k: int| n as int == #[trigger] (d * k);
            assert(k >= 2) by (nonlinear_arith)
                requires
                    n as int == d * k,
                    2 <= d < n,
                    n >= 2,
            ;
            if d <= s {
                lemma_divides_iff_mod_zero(d, n as int);
                assert(n % (d as nat) == n as int % d);
            } else {
                assert(k <= s) by (nonlinear_arith)
                    requires
                        n as int == d * k,
                        d >= s + 1,
                        k >= 2,
                        (s + 1) * (s + 1) > n,
                ;
                assert(divides(k, n as int)) by {
                    assert(n as int == k * d) by (nonlinear_arith)
                        requires
                            n as int == d * k,
                    ;
                }
                lemma_divides_iff_mod_zero(k, n as int);
                assert(n % (k as nat) == n as int % k);
            }
        }
    }
}

proof fn lemma_prime_certificate(n: nat, s: nat)
    requires
        n >= 2,
        (s + 1) * (s + 1) > n,
        no_divisor_through(n, s),
    ensures
        is_prime(n),
{
    lemma_no_divisor_through(n, s);
    lemma_prime_by_trial_division(n, s);
}

proof fn lemma_prime_entry_0()
    ensures
        is_prime(2),
{
    assert((1 + 1) * (1 + 1) > 2) by (nonlinear_arith);
    assert(no_divisor_through(2, 1)) by {
        reveal_with_fuel(no_divisor_through, 13);
    }
    lemma_prime_certificate(2, 1);
}

proof fn lemma_prime_entry_1()
    ensures
        is_prime(3),
{
    assert((1 + 1) * (1 + 1) > 3) by (nonlinear_arith);
    assert(no_divisor_through(3, 1)) by {
        reveal_with_fuel(no_divisor_through, 13);
    }
    lemma_prime_certificate(3, 1);
}

proof fn lemma_prime_entry_2()
    ensures
        is_prime(5),
{
    assert((2 + 1) * (2 + 1) > 5) by (nonlinear_arith);
    assert(no_divisor_through(5, 2)) by {
        reveal_with_fuel(no_divisor_through, 13);
    }
    lemma_prime_certificate(5, 2);
}

proof fn lemma_prime_entry_3()
    ensures
        is_prime(7),
{
    assert((2 + 1) * (2 + 1) > 7) by (nonlinear_arith);
    assert(no_divisor_through(7, 2)) by {
        reveal_with_fuel(no_divisor_through, 13);
    }
    lemma_prime_certificate(7, 2);
}

proof fn lemma_prime_entry_4()
    ensures
        is_prime(11),
{
    assert((3 + 1) * (3 + 1) > 11) by (nonlinear_arith);
    assert(no_divisor_through(11, 3)) by {
        reveal_with_fuel(no_divisor_through, 13);
    }
    lemma_prime_certificate(11, 3);
}

proof fn lemma_prime_entry_5()
    ensures
        is_prime(13),
{
    assert((3 + 1) * (3 + 1) > 13) by (nonlinear_arith);
    assert(no_divisor_through(13, 3)) by {
        reveal_with_fuel(no_divisor_through, 13);
    }
    lemma_prime_certificate(13, 3);
}

proof fn lemma_prime_entry_6()
    ensures
        is_prime(17),
{
    assert((4 + 1) * (4 + 1) > 17) by (nonlinear_arith);
    assert(no_divisor_through(17, 4)) by {
        reveal_with_fuel(no_divisor_through, 13);
    }
    lemma_prime_certificate(17, 4);
}

proof fn lemma_prime_entry_7()
    ensures
        is_prime(19),
{
    assert((4 + 1) * (4 + 1) > 19) by (nonlinear_arith);
    assert(no_divisor_through(19, 4)) by {
        reveal_with_fuel(no_divisor_through, 13);
    }
    lemma_prime_certificate(19, 4);
}

proof fn lemma_prime_entry_8()
    ensures
        is_prime(23),
{
    assert((4 + 1) * (4 + 1) > 23) by (nonlinear_arith);
    assert(no_divisor_through(23, 4)) by {
        reveal_with_fuel(no_divisor_through, 13);
    }
    lemma_prime_certificate(23, 4);
}

proof fn lemma_prime_entry_9()
    ensures
        is_prime(29),
{
    assert((5 + 1) * (5 + 1) > 29) by (nonlinear_arith);
    assert(no_divisor_through(29, 5)) by {
        reveal_with_fuel(no_divisor_through, 13);
    }
    lemma_prime_certificate(29, 5);
}

proof fn lemma_prime_entry_10()
    ensures
        is_prime(31),
{
    assert((5 + 1) * (5 + 1) > 31) by (nonlinear_arith);
    assert(no_divisor_through(31, 5)) by {
        reveal_with_fuel(no_divisor_through, 13);
    }
    lemma_prime_certificate(31, 5);
}

proof fn lemma_prime_entry_11()
    ensures
        is_prime(37),
{
    assert((6 + 1) * (6 + 1) > 37) by (nonlinear_arith);
    assert(no_divisor_through(37, 6)) by {
        reveal_with_fuel(no_divisor_through, 13);
    }
    lemma_prime_certificate(37, 6);
}

proof fn lemma_prime_entry_12()
    ensures
        is_prime(41),
{
    assert((6 + 1) * (6 + 1) > 41) by (nonlinear_arith);
    assert(no_divisor_through(41, 6)) by {
        reveal_with_fuel(no_divisor_through, 13);
    }
    lemma_prime_certificate(41, 6);
}

proof fn lemma_prime_entry_13()
    ensures
        is_prime(43),
{
    assert((6 + 1) * (6 + 1) > 43) by (nonlinear_arith);
    assert(no_divisor_through(43, 6)) by {
        reveal_with_fuel(no_divisor_through, 13);
    }
    lemma_prime_certificate(43, 6);
}

proof fn lemma_prime_entry_14()
    ensures
        is_prime(47),
{
    assert((6 + 1) * (6 + 1) > 47) by (nonlinear_arith);
    assert(no_divisor_through(47, 6)) by {
        reveal_with_fuel(no_divisor_through, 13);
    }
    lemma_prime_certificate(47, 6);
}

proof fn lemma_prime_entry_15()
    ensures
        is_prime(53),
{
    assert((7 + 1) * (7 + 1) > 53) by (nonlinear_arith);
    assert(no_divisor_through(53, 7)) by {
        reveal_with_fuel(no_divisor_through, 13);
    }
    lemma_prime_certificate(53, 7);
}

proof fn lemma_prime_entry_16()
    ensures
        is_prime(59),
{
    assert((7 + 1) * (7 + 1) > 59) by (nonlinear_arith);
    assert(no_divisor_through(59, 7)) by {
        reveal_with_fuel(no_divisor_through, 13);
    }
    lemma_prime_certificate(59, 7);
}

proof fn lemma_prime_entry_17()
    ensures
        is_prime(61),
{
    assert((7 + 1) * (7 + 1) > 61) by (nonlinear_arith);
    assert(no_divisor_through(61, 7)) by {
        reveal_with_fuel(no_divisor_through, 13);
    }
    lemma_prime_certificate(61, 7);
}

proof fn lemma_prime_entry_18()
    ensures
        is_prime(67),
{
    assert((8 + 1) * (8 + 1) > 67) by (nonlinear_arith);
    assert(no_divisor_through(67, 8)) by {
        reveal_with_fuel(no_divisor_through, 13);
    }
    lemma_prime_certificate(67, 8);
}

proof fn lemma_prime_entry_19()
    ensures
        is_prime(71),
{
    assert((8 + 1) * (8 + 1) > 71) by (nonlinear_arith);
    assert(no_divisor_through(71, 8)) by {
        reveal_with_fuel(no_divisor_through, 13);
    }
    lemma_prime_certificate(71, 8);
}

proof fn lemma_prime_entry_20()
    ensures
        is_prime(73),
{
    assert((8 + 1) * (8 + 1) > 73) by (nonlinear_arith);
    assert(no_divisor_through(73, 8)) by {
        reveal_with_fuel(no_divisor_through, 13);
    }
    lemma_prime_certificate(73, 8);
}

proof fn lemma_prime_entry_21()
    ensures
        is_prime(79),
{
    assert((8 + 1) * (8 + 1) > 79) by (nonlinear_arith);
    assert(no_divisor_through(79, 8)) by {
        reveal_with_fuel(no_divisor_through, 13);
    }
    lemma_prime_certificate(79, 8);
}

proof fn lemma_prime_entry_22()
    ensures
        is_prime(83),
{
    assert((9 + 1) * (9 + 1) > 83) by (nonlinear_arith);
    assert(no_divisor_through(83, 9)) by {
        reveal_with_fuel(no_divisor_through, 13);
    }
    lemma_prime_certificate(83, 9);
}

proof fn lemma_prime_entry_23()
    ensures
        is_prime(89),
{
    assert((9 + 1) * (9 + 1) > 89) by (nonlinear_arith);
    assert(no_divisor_through(89, 9)) by {
        reveal_with_fuel(no_divisor_through, 13);
    }
    lemma_prime_certificate(89, 9);
}

proof fn lemma_prime_entry_24()
    ensures
        is_prime(97),
{
    assert((9 + 1) * (9 + 1) > 97) by (nonlinear_arith);
    assert(no_divisor_through(97, 9)) by {
        reveal_with_fuel(no_divisor_through, 13);
    }
    lemma_prime_certificate(97, 9);
}

proof fn lemma_prime_entry_25()
    ensures
        is_prime(101),
{
    assert((10 + 1) * (10 + 1) > 101) by (nonlinear_arith);
    assert(no_divisor_through(101, 10)) by {
        reveal_with_fuel(no_divisor_through, 13);
    }
    lemma_prime_certificate(101, 10);
}

proof fn lemma_prime_entry_26()
    ensures
        is_prime(103),
{
    assert((10 + 1) * (10 + 1) > 103) by (nonlinear_arith);
    assert(no_divisor_through(103, 10)) by {
        reveal_with_fuel(no_divisor_through, 13);
    }
    lemma_prime_certificate(103, 10);
}

proof fn lemma_prime_entry_27()
    ensures
        is_prime(107),
{
    assert((10 + 1) * (10 + 1) > 107) by (nonlinear_arith);
    assert(no_divisor_through(107, 10)) by {
        reveal_with_fuel(no_divisor_through, 13);
    }
    lemma_prime_certificate(107, 10);
}

proof fn lemma_prime_entry_28()
    ensures
        is_prime(109),
{
    assert((10 + 1) * (10 + 1) > 109) by (nonlinear_arith);
    assert(no_divisor_through(109, 10)) by {
        reveal_with_fuel(no_divisor_through, 13);
    }
    lemma_prime_certificate(109, 10);
}

proof fn lemma_prime_entry_29()
    ensures
        is_prime(113),
{
    assert((10 + 1) * (10 + 1) > 113) by (nonlinear_arith);
    assert(no_divisor_through(113, 10)) by {
        reveal_with_fuel(no_divisor_through, 13);
    }
    lemma_prime_certificate(113, 10);
}

proof fn lemma_prime_entry_30()
    ensures
        is_prime(127),
{
    assert((11 + 1) * (11 + 1) > 127) by (nonlinear_arith);
    assert(no_divisor_through(127, 11)) by {
        reveal_with_fuel(no_divisor_through, 13);
    }
    lemma_prime_certificate(127, 11);
}

proof fn lemma_prime_entry_31()
    ensures
        is_prime(131),
{
    assert((11 + 1) * (11 + 1) > 131) by (nonlinear_arith);
    assert(no_divisor_through(131, 11)) by {
        reveal_with_fuel(no_divisor_through, 13);
    }
    lemma_prime_certificate(131, 11);
}

/// Every entry of the prime table is prime.
pub proof fn lemma_nth_prime_is_prime(i: int)
    requires
        0 <= i < NUM_PRIMES,
    ensures
        is_prime(nth_prime(i)),
{
    if i == 0 {
        lemma_prime_entry_0();
    } else if i == 1 {
        lemma_prime_entry_1();
    } else if i == 2 {
        lemma_prime_entry_2();
    } else if i == 3 {
        lemma_prime_entry_3();
    } else if i == 4 {
        lemma_prime_entry_4();
    } else if i == 5 {
        lemma_prime_entry_5();
    } else if i == 6 {
        lemma_prime_entry_6();
    } else if i == 7 {
        lemma_prime_entry_7();
    } else if i == 8 {
        lemma_prime_entry_8();
    } else if i == 9 {
        lemma_prime_entry_9();
    } else if i == 10 {
        lemma_prime_entry_10();
    } else if i == 11 {
        lemma_prime_entry_11();
    } else if i == 12 {
        lemma_prime_entry_12();
    } else if i == 13 {
        lemma_prime_entry_13();
    } else if i == 14 {
        lemma_prime_entry_14();
    } else if i == 15 {
        lemma_prime_entry_15();
    } else if i == 16 {
        lemma_prime_entry_16();
    } else if i == 17 {
        lemma_prime_entry_17();
    } else if i == 18 {
        lemma_prime_entry_18();
    } else if i == 19 {
        lemma_prime_entry_19();
    } else if i == 20 {
        lemma_prime_entry_20();
    } else if i == 21 {
        lemma_prime_entry_21();
    } else if i == 22 {
        lemma_prime_entry_22();
    } else if i == 23 {
        lemma_prime_entry_23();
    } else if i == 24 {
        lemma_prime_entry_24();
    } else if i == 25 {
        lemma_prime_entry_25();
    } else if i == 26 {
        lemma_prime_entry_26();
    } else if i == 27 {
        lemma_prime_entry_27();
    } else if i == 28 {
        lemma_prime_entry_28();
    } else if i == 29 {
        lemma_prime_entry_29();
    } else if i == 30 {
        lemma_prime_entry_30();
    } else {
        lemma_prime_entry_31();
    }
}

/// Table entries lie between two and the largest entry.
pub proof fn lemma_nth_prime_bounds(i: int)
    requires
        0 <= i < NUM_PRIMES,
    ensures
        2 <= nth_prime(i) <= 131,
{
}

/// The table is strictly increasing.
pub proof fn lemma_nth_prime_sorted(i: int, j: int)
    requires
        0 <= i < j < NUM_PRIMES,
    ensures
        nth_prime(i) < nth_prime(j),
{
}

/// Distinct positions hold distinct primes.
pub proof fn lemma_nth_prime_injective(i: int, j: int)
    requires
        0 <= i < NUM_PRIMES,
        0 <= j < NUM_PRIMES,
        i != j,
    ensures
        nth_prime(i) != nth_prime(j),
{
    if i < j {
        lemma_nth_prime_sorted(i, j);
    } else {
        lemma_nth_prime_sorted(j, i);
    }
}

} // verus!
