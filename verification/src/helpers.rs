//! Generic arithmetic helpers over a backing width: prime lookup, exact
//! division, divisibility and checked power, together with the product
//! model that the bag-building operations are specified against.

use vstd::prelude::*;

verus! {

use vstd::arithmetic::power::pow;
use vstd::arithmetic::power::lemma_pow0;
use vstd::arithmetic::power::lemma_pow1;
use vstd::arithmetic::power::lemma_pow_adds;
use vstd::arithmetic::power::lemma_pow_increases;
use vstd::arithmetic::power2::pow2;
use vstd::arithmetic::power2::lemma_pow2_unfold;
use vstd::arithmetic::div_mod::lemma_fundamental_div_mod;
use crate::arith::multiplicity;
use crate::arith::lemma_exact_div_halves;
use crate::arith::lemma_multiplicity_pow2_bound;
use crate::arith::lemma_pow2_le_bounds_exponent;
use crate::arith::lemma_u128_max_lt_pow2_128;
use crate::backing::Backing;
use crate::primes::nth_prime;
use crate::primes::prime_entry;
use crate::primes::lemma_nth_prime_bounds;
use crate::primes::lemma_nth_prime_sorted;
use vstd::arithmetic::logarithm::log;
use vstd::arithmetic::logarithm::lemma_log0;
use vstd::arithmetic::logarithm::lemma_log_s;
use vstd::arithmetic::logarithm::lemma_log_nonnegative;
use crate::NUM_PRIMES;

/// Whether an index has a table entry.
pub open spec fn valid_index(i: usize) -> bool {
    (i as int) < NUM_PRIMES as int
}

/// Whether every index of the sequence has a table entry.
pub open spec fn all_indices_valid(idxs: Seq<usize>) -> bool {
    forall|k: int| 0 <= k < idxs.len() ==> valid_index(#[trigger] idxs[k])
}

/// The product of the table primes at the given indices.
pub open spec fn prod_of_primes(idxs: Seq<usize>) -> nat
    decreases idxs.len(),
{
    if idxs.len() == 0 {
        1
    } else {
        prod_of_primes(idxs.drop_last()) * nth_prime(idxs.last() as int)
    }
}

/// A product over valid indices is positive.
pub proof fn lemma_prod_of_primes_pos(idxs: Seq<usize>)
    requires
        all_indices_valid(idxs),
    ensures
        prod_of_primes(idxs) >= 1,
    decreases idxs.len(),
{
    if idxs.len() > 0 {
        assert(all_indices_valid(idxs.drop_last())) by {
            assert(forall|k: int|
                0 <= k < idxs.len() - 1 ==> idxs.drop_last()[k] == #[trigger] idxs[k]);
        }
        lemma_prod_of_primes_pos(idxs.drop_last());
        lemma_nth_prime_bounds(idxs.last() as int);
        assert(prod_of_primes(idxs.drop_last()) * nth_prime(idxs.last() as int) >= 1)
            by (nonlinear_arith)
            requires
                prod_of_primes(idxs.drop_last()) >= 1,
                nth_prime(idxs.last() as int) >= 2,
        ;
    }
}

/// Extending a prefix by one index multiplies its product by that index's
/// prime.
pub proof fn lemma_prod_take_step(idxs: Seq<usize>, i: int)
    requires
        0 <= i < idxs.len(),
    ensures
        prod_of_primes(idxs.take(i + 1)) == prod_of_primes(idxs.take(i)) * nth_prime(
            idxs[i] as int,
        ),
{
    assert(idxs.take(i + 1).drop_last() =~= idxs.take(i));
    assert(idxs.take(i + 1).last() == idxs[i]);
}

/// The product over a sequence with an element put in front.
pub proof fn lemma_prod_prepend(t: Seq<usize>, x: usize)
    ensures
        prod_of_primes(seq![x] + t) == nth_prime(x as int) * prod_of_primes(t),
    decreases t.len(),
{
    let s = seq![x] + t;
    assert(s.len() == 1 + t.len());
    assert(prod_of_primes(s) == prod_of_primes(s.drop_last()) * nth_prime(s.last() as int));
    if t.len() == 0 {
        assert(s.drop_last() =~= Seq::<usize>::empty());
        assert(s.last() == x);
        assert(prod_of_primes(t) == 1);
    } else {
        assert(s.drop_last() =~= seq![x] + t.drop_last());
        assert(s.last() == t.last());
        lemma_prod_prepend(t.drop_last(), x);
        let px = nth_prime(x as int);
        let pl = nth_prime(t.last() as int);
        assert(prod_of_primes(t) == prod_of_primes(t.drop_last()) * pl);
        assert((px * prod_of_primes(t.drop_last())) * pl == px * (prod_of_primes(t.drop_last())
            * pl)) by (nonlinear_arith);
    }
}

/// A product splits at any position into the product over the prefix times
/// the product over the rest.
pub proof fn lemma_prod_split(idxs: Seq<usize>, k: int)
    requires
        0 <= k <= idxs.len(),
    ensures
        prod_of_primes(idxs) == prod_of_primes(idxs.take(k)) * prod_of_primes(idxs.skip(k)),
    decreases idxs.len() - k,
{
    if k == idxs.len() {
        assert(idxs.take(k) =~= idxs);
        assert(idxs.skip(k) =~= Seq::<usize>::empty());
        assert(prod_of_primes(idxs.skip(k)) == 1);
    } else {
        lemma_prod_split(idxs, k + 1);
        lemma_prod_take_step(idxs, k);
        assert(idxs.skip(k) =~= seq![idxs[k]] + idxs.skip(k + 1));
        lemma_prod_prepend(idxs.skip(k + 1), idxs[k]);
        let a = prod_of_primes(idxs.take(k));
        let p = nth_prime(idxs[k] as int);
        let b = prod_of_primes(idxs.skip(k + 1));
        assert((a * p) * b == a * (p * b)) by (nonlinear_arith);
    }
}

/// Returns the prime at table position `i`, or nothing when `i` is out of
/// the table's range.
pub fn get_prime<B: Backing>(i: usize) -> (r: Option<B>)
    ensures
        match r {
            Some(p) => valid_index(i) && p.value() == nth_prime(i as int),
            None => !valid_index(i),
        },
{
    if i < NUM_PRIMES {
        Some(B::from_prime(prime_entry(i)))
    } else {
        None
    }
}

/// Divides `x` by `other` when the division is exact, and reports failure
/// otherwise.
pub fn div_exact<B: Backing>(x: B, other: B) -> (r: Option<B>)
    requires
        other.value() >= 1,
    ensures
        match r {
            Some(q) => x.value() % other.value() == 0 && q.value() == x.value() / other.value()
                && x.value() == q.value() * other.value(),
            None => x.value() % other.value() != 0,
        },
{
    let rem = x.rem_value(other);
    if rem.is_zero() {
        let q = x.div_value(other);
        proof {
            lemma_fundamental_div_mod(x.value() as int, other.value() as int);
            assert(q.value() * other.value() == other.value() * q.value()) by (nonlinear_arith);
        }
        Some(q)
    } else {
        None
    }
}

/// Whether `other` divides `x` evenly.
pub fn is_multiple<B: Backing>(x: B, other: B) -> (r: bool)
    requires
        other.value() >= 1,
    ensures
        r == (x.value() % other.value() == 0),
{
    x.rem_value(other).is_zero()
}

/// Raises `base` to the `n`-th power, and reports failure when the result
/// would exceed the width.
pub fn checked_pow<B: Backing>(base: B, n: u32) -> (r: Option<B>)
    requires
        base.value() >= 1,
    ensures
        match r {
            Some(v) => v.value() == pow(base.value() as int, n as nat) && v.value()
                <= B::max_value(),
            None => pow(base.value() as int, n as nat) > B::max_value(),
        },
{
    let mut result = B::one();
    let mut k: u32 = 0;
    proof {
        lemma_pow0(base.value() as int);
    }
    while k < n
        invariant
            base.value() >= 1,
            k <= n,
            result.value() == pow(base.value() as int, k as nat),
        decreases n - k,
    {
        proof {
            lemma_pow_adds(base.value() as int, k as nat, 1);
            lemma_pow1(base.value() as int);
        }
        match result.checked_mul(base) {
            Some(next) => {
                result = next;
                k = k + 1;
            },
            None => {
                proof {
                    lemma_pow_increases(base.value(), (k + 1) as nat, n as nat);
                }
                return None;
            },
        }
    }
    proof {
        result.lemma_value_in_range();
    }
    Some(result)
}


/// Divides `p` out of `b` as often as it goes, and returns how many times
/// it went: the multiplicity of `p` in `b`.
pub fn count_factor<B: Backing>(b: B, p: B) -> (r: usize)
    requires
        p.value() >= 2,
        b.value() >= 1,
    ensures
        r as nat == multiplicity(b.value(), p.value()),
        r < 128,
    decreases b.value(),
{
    match div_exact(b, p) {
        Some(q) => {
            proof {
                lemma_exact_div_halves(b.value(), p.value());
                lemma_multiplicity_pow2_bound(b.value(), p.value());
                b.lemma_value_in_range();
                B::lemma_max_value_bound();
                lemma_u128_max_lt_pow2_128();
                lemma_pow2_le_bounds_exponent(
                    multiplicity(b.value(), p.value()),
                    b.value(),
                    128,
                );
            }
            let c = count_factor(q, p);
            c + 1
        },
        None => {
            0
        },
    }
}


/// The smallest table position at or after `i` whose prime divides `v`,
/// or the table's length when no such position exists.
pub open spec fn first_factor_from(v: nat, i: int) -> int
    decreases NUM_PRIMES as int - i,
{
    if i < 0 || i >= NUM_PRIMES as int {
        NUM_PRIMES as int
    } else if v % nth_prime(i) == 0 {
        i
    } else {
        first_factor_from(v, i + 1)
    }
}

/// What the first-factor search promises: the position found is in range,
/// its prime divides `v`, and no prime at a skipped position does.
pub proof fn lemma_first_factor(v: nat, i: int)
    requires
        0 <= i <= NUM_PRIMES as int,
    ensures
        i <= first_factor_from(v, i) <= NUM_PRIMES as int,
        first_factor_from(v, i) < NUM_PRIMES as int ==> v % nth_prime(first_factor_from(v, i))
            == 0,
        forall|k: int| i <= k < first_factor_from(v, i) ==> v % nth_prime(k) != 0,
    decreases NUM_PRIMES as int - i,
{
    if i < NUM_PRIMES as int && v % nth_prime(i) != 0 {
        lemma_first_factor(v, i + 1);
    }
}

/// Skipping a position whose prime does not divide `v` leaves the search
/// result unchanged.
pub proof fn lemma_first_factor_skip(v: nat, i: int)
    requires
        0 <= i < NUM_PRIMES as int,
        v % nth_prime(i) != 0,
    ensures
        first_factor_from(v, i) == first_factor_from(v, i + 1),
{
}

/// The ascending factor decomposition of `v` by trial division against the
/// table, searching from position `i`: the meaning of forward iteration.
pub open spec fn factor_seq_from(v: nat, i: int) -> Seq<usize>
    decreases v via factor_seq_from_decreases
{
    if v <= 1 {
        Seq::empty()
    } else {
        let j = first_factor_from(v, i);
        if j >= NUM_PRIMES as int {
            Seq::empty()
        } else {
            seq![j as usize] + factor_seq_from(v / nth_prime(j), j)
        }
    }
}

#[via_fn]
proof fn factor_seq_from_decreases(v: nat, i: int) {
    if v > 1 {
        let j = first_factor_from(v, i);
        if j < NUM_PRIMES as int {
            assert(0 <= i < NUM_PRIMES as int);
            lemma_first_factor(v, i);
            lemma_nth_prime_bounds(j);
            lemma_exact_div_halves(v, nth_prime(j));
        }
    }
}

/// A nonempty decomposition from a divisible position: what one step of
/// trial division does to the sequence.
pub proof fn lemma_factor_seq_step(v: nat, i: int)
    requires
        0 <= i,
        v >= 2,
        first_factor_from(v, i) < NUM_PRIMES as int,

    ensures
        factor_seq_from(v, i) == seq![first_factor_from(v, i) as usize] + factor_seq_from(
            v / nth_prime(first_factor_from(v, i)),
            first_factor_from(v, i),
        ),
        factor_seq_from(v, i).len() >= 1,
        factor_seq_from(v, i)[0] == first_factor_from(v, i) as usize,
        factor_seq_from(v, i).drop_first() == factor_seq_from(
            v / nth_prime(first_factor_from(v, i)),
            first_factor_from(v, i),
        ),
{
    let j = first_factor_from(v, i);
    let ju: usize = j as usize;
    let tail = factor_seq_from(v / nth_prime(j), j);
    let s = seq![ju] + tail;
    assert(factor_seq_from(v, i) == s) by {
        reveal_with_fuel(factor_seq_from, 2);
        lemma_first_factor(v, i);
    }
    assert(s.len() == 1 + tail.len());
    assert(s[0] == seq![ju][0]);
    assert(seq![ju][0] == ju);
    assert(s.drop_first() =~= tail);
}

/// Skipping a position whose prime does not divide `v` leaves the
/// decomposition unchanged.
pub proof fn lemma_factor_seq_skip(v: nat, i: int)
    requires
        0 <= i < NUM_PRIMES as int,
        v % nth_prime(i) != 0,
    ensures
        factor_seq_from(v, i) == factor_seq_from(v, i + 1),
{
    lemma_first_factor_skip(v, i);
}

/// Two to the power of the decomposition's length never exceeds the value:
/// every factor is at least two.
pub proof fn lemma_factor_seq_pow2_bound(v: nat, i: int)
    requires
        v >= 1,
    ensures
        pow2(factor_seq_from(v, i).len()) <= v,
    decreases v,
{
    if v <= 1 {
        assert(pow2(0) == 1) by {
            vstd::arithmetic::power::lemma_pow0(2);
        }
    } else {
        let j = first_factor_from(v, i);
        if j >= NUM_PRIMES as int {
            assert(pow2(0) == 1) by {
                vstd::arithmetic::power::lemma_pow0(2);
            }
        } else {
            if i >= 0 {
                lemma_first_factor(v, i);
            }
            lemma_nth_prime_bounds(j);
            let p = nth_prime(j);
            lemma_exact_div_halves(v, p);
            lemma_factor_seq_pow2_bound(v / p, j);
            let l = factor_seq_from(v / p, j).len();
            assert(factor_seq_from(v, i).len() == l + 1);
            lemma_pow2_unfold((l + 1) as nat);
            assert(2 * pow2(l) <= 2 * (v / p)) by (nonlinear_arith)
                requires
                    pow2(l) <= v / p,
            ;
        }
    }
}

/// The length of a decomposition fits comfortably in a machine word.
pub proof fn lemma_factor_seq_len_small<B: Backing>(b: B, i: int)
    requires
        b.value() >= 1,
    ensures
        factor_seq_from(b.value(), i).len() < 128,
{
    lemma_factor_seq_pow2_bound(b.value(), i);
    b.lemma_value_in_range();
    B::lemma_max_value_bound();
    lemma_u128_max_lt_pow2_128();
    lemma_pow2_le_bounds_exponent(factor_seq_from(b.value(), i).len(), b.value(), 128);
}


/// The decomposition is ascending: every emitted position is at least the
/// search's starting position, and positions never decrease, so forward
/// iteration produces elements in ascending table order.
pub proof fn lemma_factor_seq_sorted(v: nat, i: int)
    requires
        0 <= i,
    ensures
        forall|k: int|
            0 <= k < factor_seq_from(v, i).len() ==> i <= #[trigger] factor_seq_from(v, i)[k],
        forall|k: int|
            0 <= k < factor_seq_from(v, i).len() - 1 ==> #[trigger] factor_seq_from(v, i)[k]
                <= factor_seq_from(v, i)[k + 1],
    decreases v,
{
    let fs = factor_seq_from(v, i);
    if v > 1 {
        let j = first_factor_from(v, i);
        if j < NUM_PRIMES as int {
            lemma_first_factor(v, i);
            lemma_nth_prime_bounds(j);
            lemma_exact_div_halves(v, nth_prime(j));
            lemma_factor_seq_sorted(v / nth_prime(j), j);
            let tail = factor_seq_from(v / nth_prime(j), j);
            assert(fs == seq![j as usize] + tail);
            assert(forall|k: int| 0 <= k < tail.len() ==> fs[k + 1] == #[trigger] tail[k]);
        }
    }
}

/// The largest odd divisor of `v`: what remains after stripping every
/// factor of two.
pub open spec fn odd_part(v: nat) -> nat
    decreases v via odd_part_decreases
{
    if v >= 1 && v % 2 == 0 {
        odd_part(v / 2)
    } else {
        v
    }
}

#[via_fn]
proof fn odd_part_decreases(v: nat) {
    if v >= 1 && v % 2 == 0 {
        lemma_exact_div_halves(v, 2);
    }
}

/// Divides `p` out of `b` as often as it goes, returning the residue and
/// how often it went.
pub fn strip_factor<B: Backing>(b: B, p: B) -> (r: (B, usize))
    requires
        p.value() >= 2,
        b.value() >= 1,
    ensures
        r.1 as nat == multiplicity(b.value(), p.value()),
        r.1 < 128,
        r.0.value() >= 1,
        r.0.value() % p.value() != 0,
        b.value() == r.0.value() * pow(p.value() as int, r.1 as nat),
    decreases b.value(),
{
    match div_exact(b, p) {
        Some(q) => {
            proof {
                lemma_exact_div_halves(b.value(), p.value());
                lemma_multiplicity_pow2_bound(b.value(), p.value());
                b.lemma_value_in_range();
                B::lemma_max_value_bound();
                lemma_u128_max_lt_pow2_128();
                lemma_pow2_le_bounds_exponent(
                    multiplicity(b.value(), p.value()),
                    b.value(),
                    128,
                );
            }
            let (res, c) = strip_factor(q, p);
            proof {
                lemma_pow_adds(p.value() as int, c as nat, 1);
                lemma_pow1(p.value() as int);
                assert(b.value() == res.value() * pow(p.value() as int, (c + 1) as nat))
                    by (nonlinear_arith)
                    requires
                        b.value() == q.value() * p.value(),
                        q.value() == res.value() * pow(p.value() as int, c as nat),
                        pow(p.value() as int, (c + 1) as nat) == pow(p.value() as int, c as nat)
                            * p.value(),
                ;
            }
            (res, c + 1)
        },
        None => {
            proof {
                lemma_pow0(p.value() as int);
            }
            (b, 0)
        },
    }
}

/// Strips every factor of two, returning the odd part and how many twos
/// came out.
pub fn strip_twos<B: Backing>(b: B) -> (r: (B, usize))
    requires
        b.value() >= 1,
    ensures
        r.0.value() == odd_part(b.value()),
        r.1 as nat == multiplicity(b.value(), 2),
        r.1 < 128,
        r.0.value() >= 1,
        r.0.value() % 2 != 0,
        b.value() == r.0.value() * pow(2, r.1 as nat),
{
    let two = B::from_prime(2);
    let r = strip_factor(b, two);
    proof {
        lemma_odd_part_is_residue(b.value());
        lemma_odd_part_multiplicity(b.value(), r.0.value(), r.1 as nat);
    }
    r
}

/// The odd part of a positive number is positive and odd.
proof fn lemma_odd_part_is_residue(v: nat)
    requires
        v >= 1,
    ensures
        odd_part(v) >= 1,
        odd_part(v) % 2 != 0,
    decreases v,
{
    if v % 2 == 0 {
        lemma_exact_div_halves(v, 2);
        lemma_odd_part_is_residue(v / 2);
    }
}

/// Any odd residue times a power of two recovering the value is the odd
/// part with the multiplicity of two as exponent.
proof fn lemma_odd_part_multiplicity(v: nat, res: nat, c: nat)
    requires
        v >= 1,
        res >= 1,
        res % 2 != 0,
        c == multiplicity(v, 2),
        v == res * pow(2, c),
    ensures
        odd_part(v) == res,
    decreases v,
{
    if v % 2 == 0 {
        assert(c >= 1);
        lemma_exact_div_halves(v, 2);
        lemma_pow_adds(2, (c - 1) as nat, 1);
        lemma_pow1(2);
        assert(v == (res * pow(2, (c - 1) as nat)) * 2) by (nonlinear_arith)
            requires
                v == res * pow(2, c as nat),
                pow(2, c as nat) == pow(2, (c - 1) as nat) * 2,
        ;
        assert(v / 2 == res * pow(2, (c - 1) as nat)) by {
            vstd::arithmetic::div_mod::lemma_div_by_multiple(
                res * pow(2, (c - 1) as nat),
                2,
            );
        }
        lemma_odd_part_multiplicity((v / 2) as nat, res, (c - 1) as nat);
    } else {
        assert(c == 0);
        lemma_pow0(2);
    }
}

/// The total number of table factors remaining in `chunk`, searching from
/// `prime_index`: the length of its decomposition.
pub fn count_chunk<B: Backing>(chunk: B, prime_index: usize) -> (r: usize)
    requires
        chunk.value() >= 1,
    ensures
        r as nat == factor_seq_from(chunk.value(), prime_index as int).len(),
    decreases chunk.value(), NUM_PRIMES as int - prime_index as int,
{
    if chunk.eq_value(B::one()) {
        return 0;
    }
    if prime_index >= NUM_PRIMES {
        proof {
            assert(first_factor_from(chunk.value(), prime_index as int)
                == NUM_PRIMES as int);
        }
        return 0;
    }
    let p = prime_entry(prime_index);
    let pb = B::from_prime(p);
    proof {
        lemma_nth_prime_bounds(prime_index as int);
    }
    match div_exact(chunk, pb) {
        Some(nc) => {
            proof {
                lemma_exact_div_halves(chunk.value(), pb.value());
                lemma_first_factor(chunk.value(), prime_index as int);
                lemma_factor_seq_step(chunk.value(), prime_index as int);
                lemma_factor_seq_len_small(nc, prime_index as int);
            }
            let c = count_chunk(nc, prime_index);
            c + 1
        },
        None => {
            proof {
                lemma_factor_seq_skip(chunk.value(), prime_index as int);
            }
            count_chunk(chunk, prime_index + 1)
        },
    }
}


/// A floor logarithm is nonnegative and two to its power never exceeds the
/// argument.
pub proof fn lemma_log_pow2_bound(b: nat, x: nat)
    requires
        b >= 2,
        x >= 1,
    ensures
        0 <= log(b as int, x as int),
        pow2(log(b as int, x as int) as nat) <= x,
    decreases x,
{
    lemma_log_nonnegative(b as int, x as int);
    if x < b {
        lemma_log0(b as int, x as int);
        assert(pow2(0) == 1) by {
            lemma_pow0(2);
        }
    } else {
        lemma_log_s(b as int, x as int);
        let q = (x / b) as nat;
        vstd::arithmetic::div_mod::lemma_div_is_ordered(b as int, x as int, b as int);
        vstd::arithmetic::div_mod::lemma_div_by_self(b as int);
        vstd::arithmetic::div_mod::lemma_div_decreases(x as int, b as int);
        lemma_log_pow2_bound(b, q);
        let l = log(b as int, q as int) as nat;
        lemma_pow2_unfold((l + 1) as nat);
        vstd::arithmetic::div_mod::lemma_div_is_ordered_by_denominator(x as int, 2, b as int);
        vstd::arithmetic::div_mod::lemma_fundamental_div_mod(x as int, 2);
        assert(2 * pow2(l) <= 2 * q) by (nonlinear_arith)
            requires
                pow2(l) <= q,
        ;
    }
}

/// The floor logarithm of `x` in base `base`: how many times `base` goes
/// into `x` by repeated division.
pub fn floor_log<B: Backing>(base: B, x: B) -> (r: usize)
    requires
        base.value() >= 2,
        x.value() >= 1,
    ensures
        r as int == log(base.value() as int, x.value() as int),
        r < 128,
    decreases x.value(),
{
    proof {
        lemma_log_pow2_bound(base.value(), x.value());
        x.lemma_value_in_range();
        B::lemma_max_value_bound();
        lemma_u128_max_lt_pow2_128();
        lemma_pow2_le_bounds_exponent(
            log(base.value() as int, x.value() as int) as nat,
            x.value(),
            128,
        );
    }
    if x.lt_value(base) {
        proof {
            lemma_log0(base.value() as int, x.value() as int);
        }
        0
    } else {
        proof {
            lemma_log_s(base.value() as int, x.value() as int);
            vstd::arithmetic::div_mod::lemma_div_is_ordered(
                base.value() as int,
                x.value() as int,
                base.value() as int,
            );
            vstd::arithmetic::div_mod::lemma_div_by_self(base.value() as int);
            vstd::arithmetic::div_mod::lemma_div_decreases(x.value() as int, base.value() as int);
        }
        let q = x.div_value(base);
        let l = floor_log(base, q);
        l + 1
    }
}

/// Binary search in the table, from position `skip` on, for an exact match
/// on `number`: the match position, or else the insertion point, before
/// which every entry is smaller and from which on every entry is larger.
pub fn find_largest_possible_prime<B: Backing>(skip: usize, number: B) -> (r: Result<usize, usize>)
    requires
        skip <= NUM_PRIMES,
        number.value() >= 1,
    ensures
        match r {
            Ok(i) => skip <= i < NUM_PRIMES && number.value() == nth_prime(i as int),
            Err(i) => skip <= i <= NUM_PRIMES && (forall|k: int|
                skip <= k < i ==> nth_prime(k) < number.value()) && (forall|k: int|
                i <= k < NUM_PRIMES as int ==> nth_prime(k) > number.value()),
        },
{
    let mut lo = skip;
    let mut hi = NUM_PRIMES;
    while lo < hi
        invariant
            skip <= lo <= hi <= NUM_PRIMES,
            number.value() >= 1,
            forall|k: int| skip <= k < lo ==> nth_prime(k) < number.value(),
            forall|k: int| hi <= k < NUM_PRIMES as int ==> nth_prime(k) > number.value(),
        decreases hi - lo,
    {
        let mid = lo + (hi - lo) / 2;
        let p = B::from_prime(prime_entry(mid));
        if p.lt_value(number) {
            proof {
                assert forall|k: int| skip <= k < mid + 1 implies nth_prime(k) < number.value()
                by {
                    if lo <= k < mid {
                        lemma_nth_prime_sorted(k, mid as int);
                    }
                }
            }
            lo = mid + 1;
        } else if number.lt_value(p) {
            proof {
                assert forall|k: int| mid <= k < NUM_PRIMES as int implies nth_prime(k)
                    > number.value() by {
                    if mid < k < NUM_PRIMES as int {
                        lemma_nth_prime_sorted(mid as int, k);
                    }
                }
            }
            hi = mid;
        } else {
            return Ok(mid);
        }
    }
    Err(lo)
}


/// A maximal run: from a position whose prime divides the value, the
/// decomposition starts with that position repeated once per multiplicity,
/// and what follows is the decomposition of the value with that whole prime
/// power divided out, searched from the next position.
pub proof fn lemma_factor_seq_group(v: nat, j: int)
    requires
        0 <= j < NUM_PRIMES as int,
        v >= 2,
        v % nth_prime(j) == 0,
    ensures
        factor_seq_from(v, j).len() >= multiplicity(v, nth_prime(j)),
        factor_seq_from(v, j).skip(multiplicity(v, nth_prime(j)) as int) == factor_seq_from(
            v / pow(nth_prime(j) as int, multiplicity(v, nth_prime(j))) as nat,
            j + 1,
        ),
    decreases v,
{
    let p = nth_prime(j);
    lemma_nth_prime_bounds(j);
    let m = multiplicity(v, p);
    assert(first_factor_from(v, j) == j);
    lemma_factor_seq_step(v, j);
    lemma_exact_div_halves(v, p);
    let v1 = (v / p) as nat;
    assert(m == 1 + multiplicity(v1, p));
    let tail = factor_seq_from(v1 as nat, j);
    if v1 % p == 0 {
        assert(v1 >= 2) by {
            vstd::arithmetic::div_mod::lemma_mod_is_zero(v1, p);
        }
        lemma_factor_seq_group(v1, j);
        let m1 = multiplicity(v1, p);
        assert((seq![j as usize] + tail).skip(m as int) =~= tail.skip(m1 as int));
        lemma_pow_adds(p as int, m1, 1);
        lemma_pow1(p as int);
        vstd::arithmetic::power::lemma_pow_positive(p as int, m1);
        vstd::arithmetic::div_mod::lemma_div_denominator(
            v as int,
            p as int,
            pow(p as int, m1),
        );
        assert(pow(p as int, m) == p as int * pow(p as int, m1)) by (nonlinear_arith)
            requires
                pow(p as int, m) == pow(p as int, m1) * p as int,
        ;
    } else {
        assert(m == 1);
        lemma_factor_seq_skip(v1, j);
        assert((seq![j as usize] + tail).skip(1) =~= tail);
        lemma_pow1(p as int);
    }
}

} // verus!
