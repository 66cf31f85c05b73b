//! Number-theoretic foundation: divisibility, greatest common divisor,
//! least common multiple, primality and prime multiplicity, together with
//! the lemmas that the bag operations and the decoding proofs rest on.

use vstd::prelude::*;

verus! {

use vstd::arithmetic::div_mod::lemma_fundamental_div_mod;
use vstd::arithmetic::div_mod::lemma_mod_multiples_basic;
use vstd::arithmetic::div_mod::lemma_mod_self_0;
use vstd::arithmetic::div_mod::lemma_small_mod;
use vstd::arithmetic::div_mod::lemma_div_decreases;
use vstd::arithmetic::div_mod::lemma_div_multiples_vanish;
use vstd::arithmetic::div_mod::lemma_mod_is_zero;
use vstd::arithmetic::power2::pow2;
use vstd::arithmetic::power2::lemma_pow2_unfold;
use vstd::arithmetic::power2::lemma_pow2_strictly_increases;
use vstd::arithmetic::power2::lemma_pow2_adds;
use vstd::arithmetic::power2::lemma2_to64;

/// `d` divides `n`.
pub open spec fn divides(d: int, n: int) -> bool {
    exists|k: int| n == #[trigger] (d * k)
}

/// For a positive divisor and a nonnegative dividend, divisibility is the
/// same as a zero remainder.
pub proof fn lemma_divides_iff_mod_zero(d: int, n: int)
    requires
        d >= 1,
        n >= 0,
    ensures
        divides(d, n) <==> n % d == 0,
{
    if n % d == 0 {
        lemma_fundamental_div_mod(n, d);
        assert(n == d * (n / d));
    }
    if divides(d, n) {
        let k = choose|k: int| n == #[trigger] (d * k);
        lemma_mod_multiples_basic(k, d);
        assert(k * d == d * k) by (nonlinear_arith);
    }
}

/// A positive divisor of a positive number is no larger than it.
pub proof fn lemma_divides_le(d: int, n: int)
    requires
        d >= 1,
        n >= 1,
        divides(d, n),
    ensures
        d <= n,
{
    let k = choose|k: int| n == #[trigger] (d * k);
    assert(d <= n) by (nonlinear_arith)
        requires
            n == d * k,
            d >= 1,
            n >= 1,
    ;
}

/// Two positive numbers that divide each other are equal.
pub proof fn lemma_divides_antisymmetric(a: int, b: int)
    requires
        a >= 1,
        b >= 1,
        divides(a, b),
        divides(b, a),
    ensures
        a == b,
{
    lemma_divides_le(a, b);
    lemma_divides_le(b, a);
}

/// Divisibility is transitive.
pub proof fn lemma_divides_transitive(a: int, b: int, c: int)
    requires
        divides(a, b),
        divides(b, c),
    ensures
        divides(a, c),
{
    let k1 = choose|k: int| b == #[trigger] (a * k);
    let k2 = choose|k: int| c == #[trigger] (b * k);
    assert(c == a * (k1 * k2)) by (nonlinear_arith)
        requires
            b == a * k1,
            c == b * k2,
    ;
}

/// The greatest common divisor, by the Euclidean recursion.
pub open spec fn gcd(a: nat, b: nat) -> nat
    decreases b,
{
    if b == 0 {
        a
    } else {
        gcd(b, a % b)
    }
}

/// The greatest common divisor of two numbers, the first positive, is
/// positive and divides both.
pub proof fn lemma_gcd_divides(a: nat, b: nat)
    requires
        a >= 1,
    ensures
        gcd(a, b) >= 1,
        divides(gcd(a, b) as int, a as int),
        divides(gcd(a, b) as int, b as int),
    decreases b,
{
    if b == 0 {
        assert(a as int == a as int * 1);
        assert(b as int == a as int * 0);
    } else {
        lemma_gcd_divides(b, a % b);
        let g = gcd(b, a % b) as int;
        let k1 = choose|k: int| b as int == #[trigger] (g * k);
        let k2 = choose|k: int| (a % b) as int == #[trigger] (g * k);
        lemma_fundamental_div_mod(a as int, b as int);
        let q = a as int / b as int;
        assert(a as int == g * (k1 * q + k2)) by (nonlinear_arith)
            requires
                a as int == (b as int) * q + (a % b) as int,
                b as int == g * k1,
                (a % b) as int == g * k2,
        ;
    }
}

/// Bezout's identity: the greatest common divisor is an integer linear
/// combination of its arguments.
pub proof fn lemma_bezout(a: nat, b: nat)
    requires
        a >= 1,
    ensures
        exists|x: int, y: int| gcd(a, b) as int == #[trigger] (a as int * x) + #[trigger] (b as int * y),
    decreases b,
{
    if b == 0 {
        assert(gcd(a, b) as int == a as int * 1 + b as int * 0);
    } else {
        lemma_bezout(b, a % b);
        let (x, y) = choose|x: int, y: int|
            gcd(b, a % b) as int == #[trigger] (b as int * x) + #[trigger] ((a % b) as int * y);
        lemma_fundamental_div_mod(a as int, b as int);
        let q = a as int / b as int;
        assert(gcd(a, b) as int == a as int * y + b as int * (x - q * y)) by (nonlinear_arith)
            requires
                gcd(a, b) as int == b as int * x + (a % b) as int * y,
                a as int == (b as int) * q + (a % b) as int,
        ;
    }
}

/// Every common divisor divides the greatest common divisor.
pub proof fn lemma_common_divisor_divides_gcd(d: nat, a: nat, b: nat)
    requires
        d >= 1,
        a >= 1,
        divides(d as int, a as int),
        divides(d as int, b as int),
    ensures
        divides(d as int, gcd(a, b) as int),
{
    lemma_bezout(a, b);
    let (x, y) = choose|x: int, y: int| gcd(a, b) as int == #[trigger] (a as int * x) + #[trigger] (b as int * y);
    let ka = choose|k: int| a as int == #[trigger] (d as int * k);
    let kb = choose|k: int| b as int == #[trigger] (d as int * k);
    assert(gcd(a, b) as int == d as int * (ka * x + kb * y)) by (nonlinear_arith)
        requires
            gcd(a, b) as int == a as int * x + b as int * y,
            a as int == d as int * ka,
            b as int == d as int * kb,
    ;
}

/// The greatest common divisor is commutative.
pub proof fn lemma_gcd_commutes(a: nat, b: nat)
    requires
        a >= 1,
        b >= 1,
    ensures
        gcd(a, b) == gcd(b, a),
{
    lemma_gcd_divides(a, b);
    lemma_gcd_divides(b, a);
    lemma_common_divisor_divides_gcd(gcd(a, b), b, a);
    lemma_common_divisor_divides_gcd(gcd(b, a), a, b);
    lemma_divides_antisymmetric(gcd(a, b) as int, gcd(b, a) as int);
}

/// The greatest common divisor of a positive number with itself is itself.
pub proof fn lemma_gcd_self(a: nat)
    requires
        a >= 1,
    ensures
        gcd(a, a) == a,
{
    lemma_mod_self_0(a as int);
    assert(gcd(a, a) == gcd(a, 0));
}

/// The least common multiple.
pub open spec fn lcm(a: nat, b: nat) -> nat {
    (a / gcd(a, b)) * b
}

/// The least common multiple is commutative.
pub proof fn lemma_lcm_commutes(a: nat, b: nat)
    requires
        a >= 1,
        b >= 1,
    ensures
        lcm(a, b) == lcm(b, a),
{
    lemma_gcd_commutes(a, b);
    lemma_gcd_divides(a, b);
    let g = gcd(a, b) as int;
    let ka = choose|k: int| a as int == #[trigger] (g * k);
    let kb = choose|k: int| b as int == #[trigger] (g * k);
    lemma_div_multiples_vanish(ka, g);
    lemma_div_multiples_vanish(kb, g);
    assert(ka * (b as int) == kb * (a as int)) by (nonlinear_arith)
        requires
            a as int == g * ka,
            b as int == g * kb,
    ;
}

/// The least common multiple of a positive number with itself is itself.
pub proof fn lemma_lcm_self(a: nat)
    requires
        a >= 1,
    ensures
        lcm(a, a) == a,
{
    lemma_gcd_self(a);
    vstd::arithmetic::div_mod::lemma_div_by_self(a as int);
}

/// A prime has no divisor strictly between one and itself.
pub open spec fn is_prime(p: nat) -> bool {
    p >= 2 && forall|d: int| 2 <= d < p ==> !divides(d, p as int)
}

/// A prime and a positive number it does not divide have no common divisor
/// but one.
pub proof fn lemma_prime_coprime(p: nat, a: nat)
    requires
        is_prime(p),
        a >= 1,
        !divides(p as int, a as int),
    ensures
        gcd(p, a) == 1,
{
    lemma_gcd_divides(p, a);
    let g = gcd(p, a);
    if g >= 2 {
        lemma_divides_le(g as int, p as int);
        if g == p {
            assert(divides(p as int, a as int));
        } else {
            assert(!divides(g as int, p as int));
        }
    }
}

/// Euclid's lemma: a prime that divides a product divides one of the
/// factors.
pub proof fn lemma_euclid(p: nat, a: nat, b: nat)
    requires
        is_prime(p),
        a >= 1,
        b >= 1,
        divides(p as int, a as int * b as int),
    ensures
        divides(p as int, a as int) || divides(p as int, b as int),
{
    if !divides(p as int, a as int) {
        lemma_prime_coprime(p, a);
        lemma_bezout(p, a);
        let (x, y) = choose|x: int, y: int| gcd(p, a) as int == #[trigger] (p as int * x) + #[trigger] (a as int * y);
        let k = choose|k: int| a as int * b as int == #[trigger] (p as int * k);
        assert(b as int == p as int * (b * x + k * y)) by (nonlinear_arith)
            requires
                1 == p as int * x + a as int * y,
                a as int * b as int == p as int * k,
        ;
    }
}

/// A prime that divides another prime equals it.
pub proof fn lemma_prime_divides_prime(p: nat, q: nat)
    requires
        is_prime(p),
        is_prime(q),
        divides(p as int, q as int),
    ensures
        p == q,
{
    lemma_divides_le(p as int, q as int);
    if p < q {
        assert(!divides(p as int, q as int));
    }
}

/// How many times `p` divides `v`: the exponent of `p` in `v`.
pub open spec fn multiplicity(v: nat, p: nat) -> nat
    decreases v via multiplicity_decreases
{
    if p >= 2 && v >= 1 && v % p == 0 {
        (1 + multiplicity(v / p, p)) as nat
    } else {
        0
    }
}

#[via_fn]
proof fn multiplicity_decreases(v: nat, p: nat) {
    if p >= 2 && v >= 1 && v % p == 0 {
        lemma_div_decreases(v as int, p as int);
    }
}

/// The multiplicity of anything in one is zero.
pub proof fn lemma_multiplicity_one(p: nat)
    requires
        p >= 2,
    ensures
        multiplicity(1, p) == 0,
{
    lemma_small_mod(1, p);
}

/// The multiplicity of a prime in itself is one.
pub proof fn lemma_multiplicity_self(p: nat)
    requires
        p >= 2,
    ensures
        multiplicity(p, p) == 1,
{
    lemma_mod_self_0(p as int);
    vstd::arithmetic::div_mod::lemma_div_by_self(p as int);
    lemma_multiplicity_one(p);
}

/// The multiplicity of a prime in a product is the sum of its
/// multiplicities in the factors.
pub proof fn lemma_multiplicity_mul(a: nat, b: nat, p: nat)
    requires
        is_prime(p),
        a >= 1,
        b >= 1,
    ensures
        multiplicity(a * b, p) == multiplicity(a, p) + multiplicity(b, p),
    decreases a * b,
{
    let ab = a * b;
    assert(ab >= 1) by (nonlinear_arith)
        requires
            a >= 1,
            b >= 1,
            ab == a * b,
    ;
    lemma_divides_iff_mod_zero(p as int, a as int);
    lemma_divides_iff_mod_zero(p as int, b as int);
    lemma_divides_iff_mod_zero(p as int, ab as int);
    if a % p == 0 {
        let a1 = (a / p) as nat;
        lemma_fundamental_div_mod(a as int, p as int);
        assert(a1 >= 1) by (nonlinear_arith)
            requires
                a as int == p as int * a1,
                a >= 1,
                p >= 2,
        ;
        assert(ab as int == p as int * (a1 * b)) by (nonlinear_arith)
            requires
                a as int == p as int * a1,
                ab == a * b,
        ;
        lemma_mod_multiples_basic((a1 * b) as int, p as int);
        assert((a1 * b) as int * p as int == p as int * (a1 * b) as int) by (nonlinear_arith);
        assert(ab % p == 0);
        lemma_div_multiples_vanish((a1 * b) as int, p as int);
        assert(ab / p == a1 * b);
        lemma_div_decreases(a as int, p as int);
        assert(a1 * b < a * b) by (nonlinear_arith)
            requires
                a1 < a,
                b >= 1,
        ;
        lemma_multiplicity_mul(a1, b, p);
    } else if b % p == 0 {
        let b1 = (b / p) as nat;
        lemma_fundamental_div_mod(b as int, p as int);
        assert(b1 >= 1) by (nonlinear_arith)
            requires
                b as int == p as int * b1,
                b >= 1,
                p >= 2,
        ;
        assert(ab as int == p as int * (a * b1)) by (nonlinear_arith)
            requires
                b as int == p as int * b1,
                ab == a * b,
        ;
        lemma_mod_multiples_basic((a * b1) as int, p as int);
        assert((a * b1) as int * p as int == p as int * (a * b1) as int) by (nonlinear_arith);
        assert(ab % p == 0);
        lemma_div_multiples_vanish((a * b1) as int, p as int);
        assert(ab / p == a * b1);
        lemma_div_decreases(b as int, p as int);
        assert(a * b1 < a * b) by (nonlinear_arith)
            requires
                b1 < b,
                a >= 1,
        ;
        lemma_multiplicity_mul(a, b1, p);
    } else {
        if ab % p == 0 {
            lemma_euclid(p, a, b);
        }
        assert(multiplicity(a, p) == 0);
        assert(multiplicity(b, p) == 0);
        assert(multiplicity(ab, p) == 0);
    }
}

/// A prime different from `p` has multiplicity zero in `p`.
pub proof fn lemma_multiplicity_other_prime(p: nat, q: nat)
    requires
        is_prime(p),
        is_prime(q),
        p != q,
    ensures
        multiplicity(q, p) == 0,
{
    lemma_divides_iff_mod_zero(p as int, q as int);
    if q % p == 0 {
        lemma_prime_divides_prime(p, q);
    }
}



/// An exact quotient of a positive number by a positive divisor is
/// positive.
pub proof fn lemma_exact_div_pos(v: nat, d: nat)
    requires
        d >= 1,
        v >= 1,
        v % d == 0,
    ensures
        1 <= v / d,
        v == (v / d) * d,
{
    lemma_mod_is_zero(v, d);
    vstd::arithmetic::div_mod::lemma_div_is_ordered(d as int, v as int, d as int);
    vstd::arithmetic::div_mod::lemma_div_by_self(d as int);
    lemma_fundamental_div_mod(v as int, d as int);
    assert((v / d) * d == d * (v / d)) by (nonlinear_arith);
}

/// Exact division by a factor of at least two at least halves the value.
pub proof fn lemma_exact_div_halves(v: nat, p: nat)
    requires
        p >= 2,
        v >= 1,
        v % p == 0,
    ensures
        1 <= v / p,
        v / p < v,
        2 * (v / p) <= v,
{
    lemma_mod_is_zero(v, p);
    lemma_div_decreases(v as int, p as int);
    vstd::arithmetic::div_mod::lemma_div_is_ordered(p as int, v as int, p as int);
    vstd::arithmetic::div_mod::lemma_div_by_self(p as int);
    vstd::arithmetic::div_mod::lemma_div_is_ordered_by_denominator(v as int, 2, p as int);
    lemma_fundamental_div_mod(v as int, 2);
}

/// Two to the power of the multiplicity never exceeds the value itself.
pub proof fn lemma_multiplicity_pow2_bound(v: nat, p: nat)
    requires
        p >= 2,
        v >= 1,
    ensures
        pow2(multiplicity(v, p)) <= v,
    decreases v,
{
    if v % p == 0 {
        lemma_exact_div_halves(v, p);
        lemma_multiplicity_pow2_bound(v / p, p);
        lemma_pow2_unfold((multiplicity(v, p)) as nat);
        assert(pow2(multiplicity(v, p)) == 2 * pow2(multiplicity((v / p) as nat, p)));
        assert(2 * pow2(multiplicity((v / p) as nat, p)) <= 2 * (v / p)) by (nonlinear_arith)
            requires
                pow2(multiplicity((v / p) as nat, p)) <= v / p,
        ;
    } else {
        assert(pow2(0) == 1) by {
            vstd::arithmetic::power::lemma_pow0(2);
        }
    }
}

/// A value below a power of two bounds the exponent of any power of two
/// below it.
pub proof fn lemma_pow2_le_bounds_exponent(n: nat, v: nat, bits: nat)
    requires
        pow2(n) <= v,
        v < pow2(bits),
    ensures
        n < bits,
{
    if n >= bits {
        if n > bits {
            lemma_pow2_strictly_increases(bits, n);
        }
    }
}

/// The largest 128-bit value sits just below two to the 128th power.
pub proof fn lemma_u128_max_lt_pow2_128()
    ensures
        u128::MAX < pow2(128),
{
    lemma_pow2_adds(64, 64);
    lemma2_to64();
    assert(pow2(64) * pow2(64) > u128::MAX) by (nonlinear_arith)
        requires
            pow2(64) == 0x10000000000000000,
    ;
}

} // verus!
