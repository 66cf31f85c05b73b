//! The algebraic laws of the bag operations, stated over the same spec
//! functions that the operations' contracts use, so that a reader sees each
//! law proved rather than left to follow from the contracts.

use vstd::prelude::*;

verus! {

use vstd::arithmetic::div_mod::lemma_mod_multiples_basic;
use vstd::arithmetic::div_mod::lemma_div_by_multiple;
use crate::arith::divides;
use crate::arith::gcd;
use crate::arith::lemma_divides_iff_mod_zero;
use crate::arith::lemma_divides_transitive;
use crate::arith::lemma_exact_div_halves;
use crate::arith::lemma_multiplicity_mul;
use crate::arith::lemma_multiplicity_one;
use crate::arith::lemma_multiplicity_other_prime;
use crate::arith::lemma_multiplicity_self;
use crate::arith::multiplicity;
use crate::helpers::all_indices_valid;
use crate::helpers::factor_seq_from;
use crate::helpers::first_factor_from;
use crate::helpers::lemma_factor_seq_skip;
use crate::helpers::lemma_factor_seq_step;
use crate::helpers::lemma_first_factor;
use crate::helpers::lemma_prod_of_primes_pos;
use crate::helpers::lemma_prod_prepend;
use crate::helpers::lemma_prod_split;
use crate::helpers::odd_part;
use crate::helpers::prod_of_primes;
use crate::helpers::lemma_factor_seq_sorted;
use crate::iter::back_seq;
use crate::iter::back_step;
use crate::iter::spec_hint_lower;
use crate::iter::spec_hint_upper;
use crate::primes::lemma_nth_prime_sorted;
use vstd::arithmetic::logarithm::log;
use vstd::arithmetic::power::pow;
use vstd::arithmetic::power::lemma_pow0;
use vstd::arithmetic::power::lemma_pow1;
use vstd::arithmetic::power::lemma_pow_adds;
use crate::primes::lemma_nth_prime_injective;
use crate::NUM_PRIMES;
use crate::primes::lemma_nth_prime_is_prime;
use crate::arith::lcm;
use crate::arith::lemma_gcd_commutes;
use crate::arith::lemma_gcd_self;
use crate::arith::lemma_lcm_commutes;
use crate::arith::lemma_lcm_self;
use crate::backing::Backing;
use crate::helpers::valid_index;
use crate::prime_bag::PrimeBag;
use crate::prime_bag::spec_contains;
use crate::prime_bag::spec_subset;
use crate::prime_bag::spec_superset;
use crate::primes::nth_prime;
use crate::primes::lemma_nth_prime_bounds;

/// The sum of bags is commutative: `try_sum` promises a bag whose value is
/// the product of the two values, and the product does not depend on the
/// order of its factors.
pub proof fn lemma_try_sum_commutes<B: Backing, E>(a: PrimeBag<B, E>, b: PrimeBag<B, E>)
    requires
        a.wf(),
        b.wf(),
    ensures
        a.value() * b.value() == b.value() * a.value(),
{
}

/// The union of bags is commutative: `try_union` promises a bag whose value
/// is the least common multiple of the two values, which is symmetric in
/// its arguments.
pub proof fn lemma_try_union_commutes<B: Backing, E>(a: PrimeBag<B, E>, b: PrimeBag<B, E>)
    requires
        a.wf(),
        b.wf(),
    ensures
        lcm(a.value(), b.value()) == lcm(b.value(), a.value()),
{
    lemma_lcm_commutes(a.value(), b.value());
}

/// The intersection of bags is commutative: `intersection` promises a bag
/// whose value is the greatest common divisor of the two values, which is
/// symmetric in its arguments.
pub proof fn lemma_intersection_commutes<B: Backing, E>(a: PrimeBag<B, E>, b: PrimeBag<B, E>)
    requires
        a.wf(),
        b.wf(),
    ensures
        gcd(a.value(), b.value()) == gcd(b.value(), a.value()),
{
    lemma_gcd_commutes(a.value(), b.value());
}

/// Intersection is idempotent: the intersection of a bag with itself is
/// that bag, since the greatest common divisor of a value with itself is
/// that value.
pub proof fn lemma_intersection_idempotent<B: Backing, E>(a: PrimeBag<B, E>)
    requires
        a.wf(),
    ensures
        gcd(a.value(), a.value()) == a.value(),
{
    lemma_gcd_self(a.value());
}

/// Union is idempotent: the union of a bag with itself never overflows and
/// is that bag, since the least common multiple of a value with itself is
/// that value, which fits the width by construction.
pub proof fn lemma_try_union_idempotent<B: Backing, E>(a: PrimeBag<B, E>)
    requires
        a.wf(),
    ensures
        lcm(a.value(), a.value()) == a.value(),
        lcm(a.value(), a.value()) <= B::max_value(),
{
    lemma_lcm_self(a.value());
    a.lemma_value_fits();
}

/// Removal undoes insertion: inserting an element with a valid table index
/// multiplies the value by its prime, after which that prime divides the
/// value and dividing it out gives the original value back, so `try_remove`
/// returns the original bag.
pub proof fn lemma_insert_remove_inverse<B: Backing, E>(a: PrimeBag<B, E>, i: usize)
    requires
        a.wf(),
        valid_index(i),
    ensures
        spec_contains(a.value() * nth_prime(i as int), i),
        a.value() * nth_prime(i as int) / nth_prime(i as int) == a.value(),
{
    lemma_nth_prime_bounds(i as int);
    let p = nth_prime(i as int) as int;
    lemma_mod_multiples_basic(a.value() as int, p);
    lemma_div_by_multiple(a.value() as int, p);
    assert(a.value() * p == a.value() as int * p);
}

/// Superset and subset are dual: one bag is a superset of another exactly
/// when the other is a subset of the first.
pub proof fn lemma_superset_subset_dual<B: Backing, E>(a: PrimeBag<B, E>, b: PrimeBag<B, E>)
    requires
        a.wf(),
        b.wf(),
    ensures
        spec_superset(a.value(), b.value()) == spec_subset(b.value(), a.value()),
{
}


/// The product over a concatenation is the product of the two products.
proof fn lemma_prod_concat(a: Seq<usize>, b: Seq<usize>)
    ensures
        prod_of_primes(a + b) == prod_of_primes(a) * prod_of_primes(b),
    decreases b.len(),
{
    if b.len() == 0 {
        assert(a + b =~= a);
        assert(prod_of_primes(b) == 1);
    } else {
        assert((a + b).len() == a.len() + b.len());
        assert((a + b).drop_last() =~= a + b.drop_last());
        assert((a + b).last() == b.last());
        lemma_prod_concat(a, b.drop_last());
        let pa = prod_of_primes(a);
        let pd = prod_of_primes(b.drop_last());
        let pl = nth_prime(b.last() as int);
        assert(prod_of_primes(a + b) == prod_of_primes((a + b).drop_last()) * nth_prime(
            (a + b).last() as int,
        ));
        assert(prod_of_primes(b) == pd * pl);
        assert((pa * pd) * pl == pa * (pd * pl)) by (nonlinear_arith);
    }
}

/// A nonempty product over valid indices is at least two.
proof fn lemma_prod_nonempty_ge_two(idxs: Seq<usize>)
    requires
        all_indices_valid(idxs),
        idxs.len() > 0,
    ensures
        prod_of_primes(idxs) >= 2,
{
    assert(all_indices_valid(idxs.drop_last())) by {
        assert(forall|k: int|
            0 <= k < idxs.len() - 1 ==> idxs.drop_last()[k] == #[trigger] idxs[k]);
    }
    lemma_prod_of_primes_pos(idxs.drop_last());
    lemma_nth_prime_bounds(idxs.last() as int);
    assert(prod_of_primes(idxs.drop_last()) * nth_prime(idxs.last() as int) >= 2)
        by (nonlinear_arith)
        requires
            prod_of_primes(idxs.drop_last()) >= 1,
            nth_prime(idxs.last() as int) >= 2,
    ;
}

/// Each member's prime divides the product.
proof fn lemma_member_prime_divides(idxs: Seq<usize>, k: int)
    requires
        all_indices_valid(idxs),
        0 <= k < idxs.len(),
    ensures
        divides(nth_prime(idxs[k] as int) as int, prod_of_primes(idxs) as int),
{
    lemma_prod_split(idxs, k);
    assert(idxs.skip(k) =~= seq![idxs[k]] + idxs.skip(k + 1));
    lemma_prod_prepend(idxs.skip(k + 1), idxs[k]);
    let a = prod_of_primes(idxs.take(k)) as int;
    let p = nth_prime(idxs[k] as int) as int;
    let b = prod_of_primes(idxs.skip(k + 1)) as int;
    assert(prod_of_primes(idxs) as int == p * (a * b)) by (nonlinear_arith)
        requires
            prod_of_primes(idxs) as int == a * (p * b),
    ;
}

/// Removing one index divides its prime out of the product.
proof fn lemma_prod_remove(idxs: Seq<usize>, k: int)
    requires
        0 <= k < idxs.len(),
    ensures
        prod_of_primes(idxs.remove(k)) * nth_prime(idxs[k] as int) == prod_of_primes(idxs),
{
    assert(idxs.remove(k) =~= idxs.take(k) + idxs.skip(k + 1));
    lemma_prod_concat(idxs.take(k), idxs.skip(k + 1));
    lemma_prod_split(idxs, k);
    assert(idxs.skip(k) =~= seq![idxs[k]] + idxs.skip(k + 1));
    lemma_prod_prepend(idxs.skip(k + 1), idxs[k]);
    let a = prod_of_primes(idxs.take(k));
    let p = nth_prime(idxs[k] as int);
    let b = prod_of_primes(idxs.skip(k + 1));
    assert((a * b) * p == a * (p * b)) by (nonlinear_arith);
}

/// The multiplicity of a table prime in a product of table primes is the
/// number of times its index occurs: a built bag holds each element exactly
/// as often as it was inserted, which is what `count_instances` reports on
/// it.
pub proof fn lemma_multiplicity_prod_counts(idxs: Seq<usize>, j: int)
    requires
        all_indices_valid(idxs),
        0 <= j < NUM_PRIMES as int,
    ensures
        multiplicity(prod_of_primes(idxs), nth_prime(j)) == idxs.to_multiset().count(j as usize),
    decreases idxs.len(),
{
    broadcast use vstd::seq_lib::group_to_multiset_ensures;
    broadcast use vstd::multiset::group_multiset_axioms;

    lemma_nth_prime_bounds(j);
    lemma_nth_prime_is_prime(j);
    if idxs.len() == 0 {
        lemma_multiplicity_one(nth_prime(j));
        assert(!idxs.contains(j as usize));
    } else {
        let dl = idxs.drop_last();
        let x = idxs.last();
        assert(all_indices_valid(dl)) by {
            assert(forall|k: int| 0 <= k < idxs.len() - 1 ==> dl[k] == #[trigger] idxs[k]);
        }
        lemma_multiplicity_prod_counts(dl, j);
        lemma_prod_of_primes_pos(dl);
        lemma_nth_prime_bounds(x as int);
        lemma_nth_prime_is_prime(x as int);
        lemma_multiplicity_mul(prod_of_primes(dl), nth_prime(x as int), nth_prime(j));
        if x as int == j {
            lemma_multiplicity_self(nth_prime(j));
        } else {
            lemma_nth_prime_injective(j, x as int);
            lemma_multiplicity_other_prime(nth_prime(j), nth_prime(x as int));
        }
        assert(dl.push(x) =~= idxs);
        assert(idxs.to_multiset() =~= dl.to_multiset().insert(x));
    }
}

/// A search that skips a span with no dividing prime lands where a search
/// from the span's end lands.
proof fn lemma_factor_seq_skip_range(v: nat, i: int, j: int)
    requires
        0 <= i <= j <= NUM_PRIMES as int,
        forall|k: int| i <= k < j ==> v % nth_prime(k) != 0,
    ensures
        factor_seq_from(v, i) == factor_seq_from(v, j),
    decreases j - i,
{
    if i < j {
        lemma_factor_seq_skip(v, i);
        lemma_factor_seq_skip_range(v, i + 1, j);
    }
}

/// Build/decode duality: decoding the product of the primes of any valid
/// index sequence by forward trial division yields exactly that sequence's
/// indices, as a multiset. Together with the contracts of `try_from_iter`
/// (the built bag's value is the product of the elements' primes) and of
/// the iterators (they produce the value's trial-division decomposition),
/// this says that what is decoded from a built bag is what was put in.
pub proof fn lemma_build_decode(idxs: Seq<usize>)
    requires
        all_indices_valid(idxs),
    ensures
        factor_seq_from(prod_of_primes(idxs), 0).to_multiset() == idxs.to_multiset(),
    decreases idxs.len(),
{
    broadcast use vstd::seq_lib::group_to_multiset_ensures;
    broadcast use vstd::multiset::group_multiset_axioms;

    let v = prod_of_primes(idxs);
    if idxs.len() == 0 {
        assert(factor_seq_from(v, 0) =~= idxs);
    } else {
        lemma_prod_nonempty_ge_two(idxs);
        lemma_member_prime_divides(idxs, 0);
        lemma_nth_prime_bounds(idxs[0] as int);
        lemma_divides_iff_mod_zero(nth_prime(idxs[0] as int) as int, v as int);
        lemma_first_factor(v, 0);
        let f = first_factor_from(v, 0);
        assert(f <= idxs[0] as int);
        let p = nth_prime(f);
        lemma_nth_prime_bounds(f);
        lemma_factor_seq_step(v, 0);
        let fs = factor_seq_from(v, 0);
        let v1 = (v / p) as nat;
        let tail = factor_seq_from(v1, f);
        lemma_exact_div_halves(v, p);
        lemma_multiplicity_prod_counts(idxs, f);
        assert(multiplicity(v, p) >= 1);
        assert(idxs.to_multiset().count(f as usize) >= 1);
        assert(idxs.contains(f as usize));
        let k = choose|i: int| 0 <= i < idxs.len() && idxs[i] == f as usize;
        lemma_prod_remove(idxs, k);
        let rest = idxs.remove(k);
        assert(all_indices_valid(rest)) by {
            assert forall|m: int| 0 <= m < rest.len() implies valid_index(#[trigger] rest[m]) by {
                if m < k {
                    assert(rest[m] == idxs[m]);
                } else {
                    assert(rest[m] == idxs[m + 1]);
                }
            }
        }
        assert(v1 == prod_of_primes(rest)) by {
            vstd::arithmetic::div_mod::lemma_div_by_multiple(
                prod_of_primes(rest) as int,
                p as int,
            );
            assert(prod_of_primes(rest) as int * p as int == prod_of_primes(rest) * p);
        }
        lemma_build_decode(rest);
        assert(factor_seq_from(v1, 0) == tail) by {
            assert forall|m: int| 0 <= m < f implies v1 % nth_prime(m) != 0 by {
                lemma_nth_prime_bounds(m);
                if v1 % nth_prime(m) == 0 {
                    lemma_divides_iff_mod_zero(nth_prime(m) as int, v1 as int);
                    assert(divides(v1 as int, v as int)) by {
                        assert(v as int == v1 as int * p as int) by (nonlinear_arith)
                            requires
                                v == v1 * p,
                        ;
                    }
                    lemma_divides_transitive(nth_prime(m) as int, v1 as int, v as int);
                    lemma_divides_iff_mod_zero(nth_prime(m) as int, v as int);
                }
            }
            lemma_factor_seq_skip_range(v1, 0, f);
        }
        assert(tail.to_multiset() == rest.to_multiset());
        assert(fs.remove(0) =~= tail);
        assert(fs.to_multiset().remove(fs[0]) == tail.to_multiset());
        assert(idxs.to_multiset().remove(f as usize) == rest.to_multiset());
        assert(fs[0] == f as usize);
        assert(fs.contains(f as usize));
        assert(fs.to_multiset().count(f as usize) >= 1);
        assert(fs.to_multiset() =~= idxs.to_multiset()) by {
            let m1 = fs.to_multiset();
            let m2 = idxs.to_multiset();
            assert(m1.remove(f as usize) == m2.remove(f as usize));
            assert forall|y: usize| m1.count(y) == m2.count(y) by {
                if y == f as usize {
                    assert(m1.remove(y).count(y) == m1.count(y) - 1);
                    assert(m2.remove(y).count(y) == m2.count(y) - 1);
                } else {
                    assert(m1.remove(f as usize).count(y) == m1.count(y));
                    assert(m2.remove(f as usize).count(y) == m2.count(y));
                }
            }
        }
    }
}


/// An element's multiset count never exceeds the sequence's length.
proof fn lemma_count_le_len(s: Seq<usize>, x: usize)
    ensures
        s.to_multiset().count(x) <= s.len(),
    decreases s.len(),
{
    broadcast use vstd::seq_lib::group_to_multiset_ensures;
    broadcast use vstd::multiset::group_multiset_axioms;

    if s.len() > 0 {
        lemma_count_le_len(s.drop_last(), x);
        assert(s.drop_last().push(s.last()) =~= s);
    } else {
        assert(!s.contains(x));
    }
}

/// A sequence whose count of one element is its whole length holds nothing
/// else; and a sequence of one repeated element has that count.
proof fn lemma_count_full(s: Seq<usize>, x: usize)
    ensures
        s.to_multiset().count(x) == s.len() <==> (forall|k: int| 0 <= k < s.len() ==> s[k] == x),
    decreases s.len(),
{
    broadcast use vstd::seq_lib::group_to_multiset_ensures;
    broadcast use vstd::multiset::group_multiset_axioms;

    if s.len() > 0 {
        lemma_count_full(s.drop_last(), x);
        lemma_count_le_len(s.drop_last(), x);
        assert(s.drop_last().push(s.last()) =~= s);
        if s.to_multiset().count(x) == s.len() {
            assert(forall|k: int|
                0 <= k < s.len() - 1 ==> s.drop_last()[k] == #[trigger] s[k]);
        }
    } else {
        assert(!s.contains(x));
    }
}

/// A sequence of zero indices encodes a power of two.
proof fn lemma_all_zero_prod(s: Seq<usize>)
    requires
        forall|k: int| 0 <= k < s.len() ==> s[k] == 0usize,
    ensures
        prod_of_primes(s) == pow(2, s.len() as nat),
    decreases s.len(),
{
    if s.len() == 0 {
        lemma_pow0(2);
    } else {
        assert(forall|k: int|
            0 <= k < s.len() - 1 ==> s.drop_last()[k] == #[trigger] s[k]);
        lemma_all_zero_prod(s.drop_last());
        lemma_pow_adds(2, (s.len() - 1) as nat, 1);
        lemma_pow1(2);
        assert(s.last() == 0usize);
    }
}

/// Doubling leaves the odd part unchanged.
proof fn lemma_odd_part_mul_two(a: nat)
    requires
        a >= 1,
    ensures
        odd_part(a * 2) == odd_part(a),
{
    vstd::arithmetic::div_mod::lemma_mod_multiples_basic(a as int, 2);
    vstd::arithmetic::div_mod::lemma_div_by_multiple(a as int, 2);
    assert(a * 2 >= 2) by (nonlinear_arith)
        requires
            a >= 1,
    ;
}

/// Multiplying by an odd factor multiplies the odd part by it.
proof fn lemma_odd_part_mul_odd(a: nat, p: nat)
    requires
        a >= 1,
        p % 2 == 1,
    ensures
        odd_part(a * p) == odd_part(a) * p,
    decreases a,
{
    if a % 2 == 0 {
        lemma_exact_div_halves(a, 2);
        let h = (a / 2) as nat;
        vstd::arithmetic::div_mod::lemma_fundamental_div_mod(a as int, 2);
        assert(a * p == (h * p) * 2) by (nonlinear_arith)
            requires
                a == 2 * h,
        ;
        assert(h * p >= 1) by (nonlinear_arith)
            requires
                h >= 1,
                p >= 1,
        ;
        lemma_odd_part_mul_odd(h, p);
        assert(odd_part((h * p) * 2) == odd_part(h * p)) by {
            lemma_odd_part_mul_two(h * p);
        }
    } else {
        let q = (a - 1) / 2;
        vstd::arithmetic::div_mod::lemma_fundamental_div_mod(a as int, 2);
        let i = a as int / 2;
        let j = p as int / 2;
        vstd::arithmetic::div_mod::lemma_fundamental_div_mod(p as int, 2);
        assert(a as int * p as int == 2 * (2 * i * j + i + j) + 1) by (nonlinear_arith)
            requires
                a as int == 2 * i + 1,
                p as int == 2 * j + 1,
        ;
        assert((a * p) as int % 2 == 1) by {
            vstd::arithmetic::div_mod::lemma_fundamental_div_mod_converse_mod(
                (a * p) as int,
                2,
                2 * i * j + i + j,
                1,
            );
        }
        assert(a * p >= 1) by (nonlinear_arith)
            requires
                a >= 1,
                p >= 1,
        ;
    }
}

/// A prime at a positive table position is odd.
proof fn lemma_table_prime_odd(j: int)
    requires
        1 <= j < NUM_PRIMES as int,
    ensures
        nth_prime(j) % 2 == 1,
{
    lemma_nth_prime_is_prime(j);
    lemma_nth_prime_bounds(j);
    lemma_nth_prime_sorted(0, j);
    let p = nth_prime(j);
    if p % 2 == 0 {
        lemma_divides_iff_mod_zero(2, p as int);
        crate::arith::lemma_prime_divides_prime(2, p) ;
    }
    assert(p % 2 == 0 || p % 2 == 1);
}

/// The odd part of a product of table primes is at least three to the
/// number of positive positions among them.
proof fn lemma_odd_prod_bound(idxs: Seq<usize>)
    requires
        all_indices_valid(idxs),
    ensures
        idxs.to_multiset().count(0usize) <= idxs.len(),
        odd_part(prod_of_primes(idxs)) >= pow(
            3,
            (idxs.len() - idxs.to_multiset().count(0usize)) as nat,
        ),
    decreases idxs.len(),
{
    broadcast use vstd::seq_lib::group_to_multiset_ensures;
    broadcast use vstd::multiset::group_multiset_axioms;

    lemma_count_le_len(idxs, 0usize);
    if idxs.len() == 0 {
        assert(!idxs.contains(0usize));
        lemma_pow0(3);
    } else {
        let dl = idxs.drop_last();
        let x = idxs.last();
        assert(all_indices_valid(dl)) by {
            assert(forall|k: int| 0 <= k < idxs.len() - 1 ==> dl[k] == #[trigger] idxs[k]);
        }
        lemma_odd_prod_bound(dl);
        lemma_prod_of_primes_pos(dl);
        let pd = prod_of_primes(dl);
        let z = dl.to_multiset().count(0usize);
        let nz = (dl.len() - z) as nat;
        assert(dl.push(x) =~= idxs);
        if x == 0usize {
            assert(nth_prime(0) == 2);
            lemma_odd_part_mul_two(pd);
            assert(idxs.to_multiset().count(0usize) == z + 1);
        } else {
            lemma_table_prime_odd(x as int);
            lemma_nth_prime_bounds(x as int);
            lemma_nth_prime_sorted(0, x as int);
            let p = nth_prime(x as int);
            assert(p >= 3);
            lemma_odd_part_mul_odd(pd, p);
            lemma_pow_adds(3, nz, 1);
            lemma_pow1(3);
            vstd::arithmetic::power::lemma_pow_positive(3, nz);
            assert(odd_part(pd) * p >= pow(3, nz) * 3) by (nonlinear_arith)
                requires
                    odd_part(pd) >= pow(3, nz),
                    pow(3, nz) >= 1,
                    p >= 3,
            ;
            assert(idxs.to_multiset().count(0usize) == z);
        }
    }
}

/// A power of two at an odd prime has multiplicity zero.
proof fn lemma_pow2_odd_multiplicity(t: nat, j: int)
    requires
        1 <= j < NUM_PRIMES as int,
    ensures
        multiplicity(pow(2, t) as nat, nth_prime(j)) == 0,
    decreases t,
{
    let p = nth_prime(j);
    lemma_nth_prime_is_prime(j);
    lemma_nth_prime_bounds(j);
    lemma_nth_prime_sorted(0, j);
    if t == 0 {
        lemma_pow0(2);
        lemma_multiplicity_one(p);
    } else {
        lemma_pow2_odd_multiplicity((t - 1) as nat, j);
        lemma_pow_adds(2, (t - 1) as nat, 1);
        lemma_pow1(2);
        vstd::arithmetic::power::lemma_pow_positive(2, (t - 1) as nat);
        lemma_multiplicity_mul(pow(2, (t - 1) as nat) as nat, 2, p);
        lemma_multiplicity_other_prime(p, 2);
        assert(pow(2, t) == pow(2, (t - 1) as nat) * 2);
    }
}

/// The decomposition of a number into its odd part and its twos.
proof fn lemma_odd_part_decompose(v: nat)
    requires
        v >= 1,
    ensures
        odd_part(v) >= 1,
        odd_part(v) % 2 != 0,
        v == odd_part(v) * pow(2, multiplicity(v, 2)) as nat,
    decreases v,
{
    if v % 2 == 0 {
        lemma_exact_div_halves(v, 2);
        lemma_odd_part_decompose((v / 2) as nat);
        let m1 = multiplicity((v / 2) as nat, 2);
        assert(odd_part(v) == odd_part((v / 2) as nat));
        assert(multiplicity(v, 2) == 1 + m1);
        vstd::arithmetic::power::lemma_pow_positive(2, m1);
        vstd::arithmetic::power::lemma_pow_positive(2, multiplicity(v, 2));
        lemma_pow_adds(2, m1, 1);
        lemma_pow1(2);
        vstd::arithmetic::div_mod::lemma_fundamental_div_mod(v as int, 2);
        assert(v == odd_part(v) * (pow(2, m1) * 2)) by (nonlinear_arith)
            requires
                v == 2 * (v / 2),
                (v / 2) as int == odd_part(v) as int * pow(2, m1),
        ;
        assert(pow(2, multiplicity(v, 2)) == pow(2, m1) * 2);
        assert(v == odd_part(v) * pow(2, multiplicity(v, 2)) as nat) by (nonlinear_arith)
            requires
                v as int == odd_part(v) as int * (pow(2, m1) * 2),
                pow(2, multiplicity(v, 2)) == pow(2, m1) * 2,
                pow(2, multiplicity(v, 2)) >= 1,
        ;
    } else {
        lemma_pow0(2);
        assert(multiplicity(v, 2) == 0);
        assert(odd_part(v) == v);
        assert(pow(2, 0) as nat == 1);
        assert(v == odd_part(v) * pow(2, multiplicity(v, 2)) as nat) by (nonlinear_arith)
            requires
                odd_part(v) == v,
                pow(2, multiplicity(v, 2)) as nat == 1,
        ;
    }
}

/// The bounds that `size_hint` reports for a freshly built bag really bound
/// the number of elements that iteration produces: the lower bound never
/// overshoots and the upper bound is finite and never undershoots.
pub proof fn lemma_size_hint_bounds(idxs: Seq<usize>)
    requires
        all_indices_valid(idxs),
    ensures
        spec_hint_lower(prod_of_primes(idxs), 0) <= factor_seq_from(
            prod_of_primes(idxs),
            0,
        ).len(),
        spec_hint_upper(prod_of_primes(idxs), 0) matches Some(u) && factor_seq_from(
            prod_of_primes(idxs),
            0,
        ).len() <= u,
{
    broadcast use vstd::seq_lib::group_to_multiset_ensures;
    broadcast use vstd::multiset::group_multiset_axioms;

    let v = prod_of_primes(idxs);
    lemma_prod_of_primes_pos(idxs);
    let fs = factor_seq_from(v, 0);
    lemma_build_decode(idxs);
    assert(fs.len() == idxs.len()) by {
        assert(fs.to_multiset().len() == fs.len());
        assert(idxs.to_multiset().len() == idxs.len());
    }
    let len = idxs.len();
    lemma_multiplicity_prod_counts(idxs, 0);
    assert(nth_prime(0) == 2);
    let t = multiplicity(v, 2);
    assert(t == idxs.to_multiset().count(0usize));
    lemma_count_le_len(idxs, 0usize);
    let w = odd_part(v);
    lemma_odd_part_decompose(v);
    if w == 1 {
        assert(spec_hint_lower(v, 0) == t);
        assert(spec_hint_upper(v, 0) == Some(t));
        assert forall|k: int| 0 <= k < len implies idxs[k] == 0usize by {
            let j = idxs[k];
            if j != 0usize {
                lemma_multiplicity_prod_counts(idxs, j as int);
                assert(idxs.contains(j));
                assert(idxs.to_multiset().count(j) >= 1);
                lemma_pow2_odd_multiplicity(t, j as int);
                assert(v == 1 * pow(2, t));
            }
        }
        lemma_count_full(idxs, 0usize);
        assert(t == len);
    } else {
        assert(spec_hint_lower(v, 0) == t + 1);
        if len <= t {
            assert(t == len);
            lemma_count_full(idxs, 0usize);
            lemma_all_zero_prod(idxs);
            assert(v == pow(2, t) as nat);
            assert(v == odd_part(v) * pow(2, t) as nat);
            vstd::arithmetic::power::lemma_pow_positive(2, t);
            assert(odd_part(v) == 1) by (nonlinear_arith)
                requires
                    odd_part(v) as int * pow(2, t) == pow(2, t),
                    pow(2, t) >= 1,
            ;
        }
        assert(len >= t + 1);
        assert(spec_hint_upper(v, 0) == Some((t + log(3, w as int)) as nat));
        let nz = (len - t) as nat;
        lemma_odd_prod_bound(idxs);
        assert(odd_part(v) >= pow(3, nz));
        vstd::arithmetic::power::lemma_pow_positive(3, nz);
        vstd::arithmetic::logarithm::lemma_log_pow(3, nz);
        vstd::arithmetic::logarithm::lemma_log_is_ordered(3, pow(3, nz), w as int);
        assert(nz <= log(3, w as int));
    }
}


/// Non-decreasing order, stated over every pair of positions.
spec fn sorted_ascending(s: Seq<usize>) -> bool {
    forall|i: int, j: int| 0 <= i <= j < s.len() ==> #[trigger] s[i] <= #[trigger] s[j]
}

proof fn lemma_adjacent_sorted_rec(s: Seq<usize>, i: int, j: int)
    requires
        forall|k: int| 0 <= k < s.len() - 1 ==> #[trigger] s[k] <= s[k + 1],
        0 <= i <= j < s.len(),
    ensures
        s[i] <= s[j],
    decreases j - i,
{
    if i < j {
        lemma_adjacent_sorted_rec(s, i, j - 1);
        assert(s[j - 1] <= s[j]);
    }
}

/// A decomposition is ascending at every pair of positions.
proof fn lemma_factor_seq_globally_sorted(v: nat, i: int)
    requires
        0 <= i,
    ensures
        sorted_ascending(factor_seq_from(v, i)),
{
    lemma_factor_seq_sorted(v, i);
    let fs = factor_seq_from(v, i);
    assert forall|a: int, b: int| 0 <= a <= b < fs.len() implies #[trigger] fs[a]
        <= #[trigger] fs[b] by {
        lemma_adjacent_sorted_rec(fs, a, b);
    }
}

/// Two sequences in non-decreasing order with the same multiset are the
/// same sequence.
proof fn lemma_sorted_multiset_unique(s1: Seq<usize>, s2: Seq<usize>)
    requires
        sorted_ascending(s1),
        sorted_ascending(s2),
        s1.to_multiset() == s2.to_multiset(),
    ensures
        s1 == s2,
    decreases s1.len(),
{
    broadcast use vstd::seq_lib::group_to_multiset_ensures;
    broadcast use vstd::multiset::group_multiset_axioms;

    assert(s1.len() == s1.to_multiset().len());
    assert(s2.len() == s2.to_multiset().len());
    if s1.len() == 0 {
        assert(s1 =~= s2);
    } else {
        let x1 = s1.last();
        let x2 = s2.last();
        assert(s1.contains(x1));
        assert(s2.to_multiset().count(x1) > 0);
        assert(s2.contains(x1));
        let k1 = choose|k: int| 0 <= k < s2.len() && s2[k] == x1;
        assert(x1 <= x2) by {
            assert(s2[k1] <= s2[s2.len() - 1]);
        }
        assert(s2.contains(x2));
        assert(s1.to_multiset().count(x2) > 0);
        assert(s1.contains(x2));
        let k2 = choose|k: int| 0 <= k < s1.len() && s1[k] == x2;
        assert(x2 <= x1) by {
            assert(s1[k2] <= s1[s1.len() - 1]);
        }
        assert(x1 == x2);
        let d1 = s1.drop_last();
        let d2 = s2.drop_last();
        assert(s1.remove(s1.len() - 1) =~= d1);
        assert(s2.remove(s2.len() - 1) =~= d2);
        assert(d1.to_multiset() == s1.to_multiset().remove(x1));
        assert(d2.to_multiset() == s2.to_multiset().remove(x2));
        assert(sorted_ascending(d1)) by {
            assert(forall|k: int| 0 <= k < d1.len() ==> d1[k] == #[trigger] s1[k]);
        }
        assert(sorted_ascending(d2)) by {
            assert(forall|k: int| 0 <= k < d2.len() ==> d2[k] == #[trigger] s2[k]);
        }
        lemma_sorted_multiset_unique(d1, d2);
        assert(s1 =~= d1.push(x1));
        assert(s2 =~= d2.push(x2));
    }
}

/// Positive multiplicity is the same as divisibility.
proof fn lemma_multiplicity_pos_iff_divides(v: nat, p: nat)
    requires
        v >= 1,
        p >= 2,
    ensures
        multiplicity(v, p) >= 1 <==> v % p == 0,
{
}

/// Factors of two do not hide a table prime: an odd table prime has the
/// same multiplicity in the odd part as in the whole value.
proof fn lemma_multiplicity_odd_part(v: nat, j: int)
    requires
        v >= 1,
        1 <= j < NUM_PRIMES as int,
    ensures
        multiplicity(odd_part(v), nth_prime(j)) == multiplicity(v, nth_prime(j)),
{
    lemma_odd_part_decompose(v);
    let w = odd_part(v);
    let t = multiplicity(v, 2);
    lemma_nth_prime_is_prime(j);
    vstd::arithmetic::power::lemma_pow_positive(2, t);
    lemma_multiplicity_mul(w, pow(2, t) as nat, nth_prime(j));
    lemma_pow2_odd_multiplicity(t, j);
}


/// The product depends only on the multiset of indices, not their order.
proof fn lemma_prod_multiset_invariant(s1: Seq<usize>, s2: Seq<usize>)
    requires
        s1.to_multiset() == s2.to_multiset(),
    ensures
        prod_of_primes(s1) == prod_of_primes(s2),
    decreases s1.len(),
{
    broadcast use vstd::seq_lib::group_to_multiset_ensures;
    broadcast use vstd::multiset::group_multiset_axioms;

    assert(s1.len() == s1.to_multiset().len());
    assert(s2.len() == s2.to_multiset().len());
    if s1.len() == 0 {
        assert(s1 =~= s2);
    } else {
        let x = s1.last();
        assert(s1.contains(x));
        assert(s2.to_multiset().count(x) > 0);
        assert(s2.contains(x));
        let k = choose|k: int| 0 <= k < s2.len() && s2[k] == x;
        lemma_prod_remove(s2, k);
        let d1 = s1.drop_last();
        assert(s1.remove(s1.len() - 1) =~= d1);
        assert(d1.to_multiset() == s1.to_multiset().remove(x));
        assert(s2.remove(k).to_multiset() == s2.to_multiset().remove(x));
        lemma_prod_multiset_invariant(d1, s2.remove(k));
        assert(prod_of_primes(s1) == prod_of_primes(d1) * nth_prime(x as int));
    }
}

/// One backward step from a freshly built bag emits the last element of the
/// forward decomposition and leaves the value whose decomposition is all
/// but that last element: backward iteration produces the forward sequence
/// in reverse.
pub proof fn lemma_back_step_decodes(idxs: Seq<usize>)
    requires
        all_indices_valid(idxs),
    ensures
        ({
            let v = prod_of_primes(idxs);
            let fs = factor_seq_from(v, 0);
            &&& (fs.len() == 0 ==> back_step(v, 0) is None)
            &&& (fs.len() > 0 ==> (back_step(v, 0) matches Some((l, nv)) && l == fs.last() as int
                && nv >= 1 && factor_seq_from(nv, 0) == fs.drop_last() && nv == prod_of_primes(
                fs.drop_last(),
            )))
        }),
{
    broadcast use vstd::seq_lib::group_to_multiset_ensures;
    broadcast use vstd::multiset::group_multiset_axioms;

    let v = prod_of_primes(idxs);
    let fs = factor_seq_from(v, 0);
    lemma_prod_of_primes_pos(idxs);
    lemma_build_decode(idxs);
    assert(fs.len() == idxs.len()) by {
        assert(fs.to_multiset().len() == fs.len());
        assert(idxs.to_multiset().len() == idxs.len());
    }
    if idxs.len() == 0 {
        assert(v == 1);
    } else {
        lemma_prod_nonempty_ge_two(idxs);
        lemma_factor_seq_globally_sorted(v, 0);
        let len = fs.len() as int;
        let last = fs.last();
        assert(fs.contains(last));
        assert(idxs.to_multiset().count(last) > 0);
        assert(idxs.contains(last));
        assert(valid_index(last)) by {
            let ki = choose|k: int| 0 <= k < idxs.len() && idxs[k] == last;
        }
        lemma_multiplicity_prod_counts(idxs, last as int);
        lemma_nth_prime_bounds(last as int);
        lemma_multiplicity_pos_iff_divides(v, nth_prime(last as int));
        assert(multiplicity(v, nth_prime(last as int)) >= 1);
        assert forall|j: int| last < j < NUM_PRIMES as int implies v % nth_prime(j) != 0 by {
            lemma_multiplicity_prod_counts(idxs, j);
            lemma_nth_prime_bounds(j);
            lemma_multiplicity_pos_iff_divides(v, nth_prime(j));
            if idxs.to_multiset().count(j as usize) > 0 {
                assert(fs.to_multiset().count(j as usize) > 0);
                assert(fs.contains(j as usize));
                let kf = choose|k: int| 0 <= k < fs.len() && fs[k] == j as usize;
                assert(fs[kf] <= fs[len - 1]);
            }
        }
        lemma_odd_part_decompose(v);
        let w = odd_part(v);
        let t = multiplicity(v, 2);
        lemma_multiplicity_prod_counts(idxs, 0);
        assert(nth_prime(0) == 2);
        if w == 1 {
            // the value is a power of two: the last element is the head of
            // the table, and one factor of two comes off
            assert(last == 0usize) by {
                if last as int >= 1 {
                    lemma_multiplicity_odd_part(v, last as int);
                    lemma_multiplicity_one(nth_prime(last as int));
                }
            }
            assert(back_step(v, 0) == Some((0int, (v / 2) as nat)));
            assert forall|k: int| 0 <= k < idxs.len() implies idxs[k] == 0usize by {
                if idxs[k] != 0usize {
                    assert(idxs.contains(idxs[k]));
                    assert(fs.to_multiset().count(idxs[k]) > 0);
                    assert(fs.contains(idxs[k]));
                    let kf = choose|m: int| 0 <= m < fs.len() && fs[m] == idxs[k];
                    assert(fs[kf] <= fs[len - 1]);
                    lemma_multiplicity_prod_counts(idxs, idxs[k] as int);
                    lemma_multiplicity_odd_part(v, idxs[k] as int);
                    lemma_multiplicity_one(nth_prime(idxs[k] as int));
                    lemma_nth_prime_bounds(idxs[k] as int);
                }
            }
            let rest = idxs.drop_last();
            assert(all_indices_valid(rest)) by {
                assert(forall|k: int|
                    0 <= k < idxs.len() - 1 ==> rest[k] == #[trigger] idxs[k]);
            }
            lemma_all_zero_prod(idxs);
            lemma_all_zero_prod(rest);
            lemma_pow_adds(2, (idxs.len() - 1) as nat, 1);
            lemma_pow1(2);
            vstd::arithmetic::power::lemma_pow_positive(2, (idxs.len() - 1) as nat);
            assert(v == pow(2, (idxs.len() - 1) as nat) as nat * 2);
            assert(v / 2 == pow(2, (idxs.len() - 1) as nat)) by {
                vstd::arithmetic::div_mod::lemma_div_by_multiple(
                    pow(2, (idxs.len() - 1) as nat),
                    2,
                );
            }
            assert((v / 2) as nat == prod_of_primes(rest));
            lemma_build_decode(rest);
            let fsn = factor_seq_from((v / 2) as nat, 0);
            assert(idxs =~= rest.push(idxs.last()));
            assert(idxs.to_multiset() == rest.to_multiset().insert(0usize));
            assert(rest.to_multiset() == idxs.to_multiset().remove(0usize)) by {
                assert(rest.to_multiset().insert(0usize).remove(0usize) =~= rest.to_multiset());
            }
            assert(fs.remove(len - 1) =~= fs.drop_last());
            assert(fs.drop_last().to_multiset() == fs.to_multiset().remove(0usize));
            lemma_factor_seq_globally_sorted((v / 2) as nat, 0);
            assert(sorted_ascending(fs.drop_last())) by {
                assert(forall|k: int|
                    0 <= k < fs.len() - 1 ==> fs.drop_last()[k] == #[trigger] fs[k]);
            }
            lemma_sorted_multiset_unique(fsn, fs.drop_last());
            lemma_prod_multiset_invariant(fs.drop_last(), rest);
        } else {
            // an odd residual is left: the largest dividing table prime is
            // the last element, and it comes off once
            assert(last as int >= 1) by {
                if last == 0usize {
                    assert forall|k: int| 0 <= k < idxs.len() implies idxs[k] == 0usize by {
                        if idxs[k] != 0usize {
                            assert(idxs.contains(idxs[k]));
                            assert(fs.to_multiset().count(idxs[k]) > 0);
                            assert(fs.contains(idxs[k]));
                            let kf = choose|m: int| 0 <= m < fs.len() && fs[m] == idxs[k];
                            assert(fs[kf] <= fs[len - 1]);
                        }
                    }
                    lemma_count_full(idxs, 0usize);
                    lemma_all_zero_prod(idxs);
                    assert(v == pow(2, t) as nat);
                    vstd::arithmetic::power::lemma_pow_positive(2, t);
                    assert(w == 1) by (nonlinear_arith)
                        requires
                            w as int * pow(2, t) == pow(2, t),
                            pow(2, t) >= 1,
                            w >= 1,
                    ;
                }
            }
            let ll = last as int;
            lemma_multiplicity_odd_part(v, ll);
            lemma_multiplicity_pos_iff_divides(w, nth_prime(ll));
            assert(w % nth_prime(ll) == 0);
            assert forall|j: int| ll < j < NUM_PRIMES as int implies w % nth_prime(j) != 0 by {
                lemma_multiplicity_odd_part(v, j);
                lemma_nth_prime_bounds(j);
                lemma_multiplicity_pos_iff_divides(w, nth_prime(j));
                lemma_multiplicity_pos_iff_divides(v, nth_prime(j));
            }
            crate::iter::lemma_largest_factor_found(w, 1, NUM_PRIMES as int, ll);
            assert(back_step(v, 0) == Some((ll, (v / nth_prime(ll)) as nat)));
            let k0 = choose|k: int| 0 <= k < idxs.len() && idxs[k] == last;
            lemma_prod_remove(idxs, k0);
            let rest = idxs.remove(k0);
            assert(all_indices_valid(rest)) by {
                assert forall|m: int| 0 <= m < rest.len() implies valid_index(
                    #[trigger] rest[m],
                ) by {
                    if m < k0 {
                        assert(rest[m] == idxs[m]);
                    } else {
                        assert(rest[m] == idxs[m + 1]);
                    }
                }
            }
            assert((v / nth_prime(ll)) as nat == prod_of_primes(rest)) by {
                vstd::arithmetic::div_mod::lemma_div_by_multiple(
                    prod_of_primes(rest) as int,
                    nth_prime(ll) as int,
                );
                assert(prod_of_primes(rest) as int * nth_prime(ll) as int == prod_of_primes(rest)
                    * nth_prime(ll));
            }
            lemma_build_decode(rest);
            lemma_prod_of_primes_pos(rest);
            let fsn = factor_seq_from((v / nth_prime(ll)) as nat, 0);
            assert(rest.to_multiset() == idxs.to_multiset().remove(last));
            assert(fs.remove(len - 1) =~= fs.drop_last());
            assert(fs.drop_last().to_multiset() == fs.to_multiset().remove(last));
            lemma_factor_seq_globally_sorted((v / nth_prime(ll)) as nat, 0);
            assert(sorted_ascending(fs.drop_last())) by {
                assert(forall|k: int|
                    0 <= k < fs.len() - 1 ==> fs.drop_last()[k] == #[trigger] fs[k]);
            }
            lemma_sorted_multiset_unique(fsn, fs.drop_last());
            lemma_prod_multiset_invariant(fs.drop_last(), rest);
        }
    }
}

/// Backward iteration reverses forward iteration: from a freshly built bag,
/// the sequence of backward steps is exactly the forward decomposition read
/// from the end.
pub proof fn lemma_backward_reverses_forward(idxs: Seq<usize>)
    requires
        all_indices_valid(idxs),
    ensures
        back_seq(prod_of_primes(idxs)) == factor_seq_from(prod_of_primes(idxs), 0).reverse(),
    decreases idxs.len(),
{
    broadcast use vstd::seq_lib::group_to_multiset_ensures;
    broadcast use vstd::multiset::group_multiset_axioms;

    let v = prod_of_primes(idxs);
    let fs = factor_seq_from(v, 0);
    lemma_build_decode(idxs);
    lemma_back_step_decodes(idxs);
    assert(fs.len() == idxs.len()) by {
        assert(fs.to_multiset().len() == fs.len());
        assert(idxs.to_multiset().len() == idxs.len());
    }
    if fs.len() == 0 {
        assert(back_seq(v) =~= fs.reverse());
    } else {
        let dl = fs.drop_last();
        assert(all_indices_valid(dl)) by {
            assert forall|k: int| 0 <= k < dl.len() implies valid_index(#[trigger] dl[k]) by {
                assert(dl[k] == fs[k]);
                assert(fs.contains(fs[k]));
                assert(idxs.to_multiset().count(fs[k]) > 0);
                assert(idxs.contains(fs[k]));
                let m = choose|m: int| 0 <= m < idxs.len() && idxs[m] == fs[k];
            }
        }
        lemma_backward_reverses_forward(dl);
        let nv = prod_of_primes(dl);
        assert(back_seq(v) == seq![fs.last()] + back_seq(nv));
        assert(back_seq(nv) == factor_seq_from(nv, 0).reverse());
        assert(factor_seq_from(nv, 0) == dl);
        assert(fs.reverse() =~= seq![fs.last()] + dl.reverse());
    }
}

} // verus!
