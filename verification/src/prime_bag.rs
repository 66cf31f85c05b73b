//! The bag itself: a multiset of elements stored as one unsigned integer,
//! the product of the table primes of its members.

use core::marker::PhantomData;
use vstd::prelude::*;

verus! {

use vstd::arithmetic::power::pow;
use vstd::arithmetic::power::lemma_pow_positive;
use vstd::arithmetic::div_mod::lemma_small_mod;
use crate::arith::gcd;
use crate::arith::lcm;
use crate::arith::multiplicity;
use crate::arith::lemma_gcd_divides;
use crate::arith::lemma_divides_iff_mod_zero;
use crate::arith::lemma_divides_le;
use crate::arith::lemma_exact_div_halves;
use crate::arith::lemma_exact_div_pos;
use crate::backing::Backing;
use crate::helpers::all_indices_valid;
use crate::helpers::checked_pow;
use crate::helpers::count_factor;
use crate::helpers::div_exact;
use crate::helpers::factor_seq_from;
use crate::helpers::get_prime;
use crate::helpers::is_multiple;
use crate::helpers::lemma_prod_of_primes_pos;
use crate::helpers::lemma_prod_split;
use crate::helpers::lemma_prod_take_step;
use crate::helpers::prod_of_primes;
use crate::helpers::valid_index;
use crate::prime_bag_element::PrimeBagElement;
use crate::primes::nth_prime;
use crate::primes::lemma_nth_prime_bounds;

/// The table indices of a sequence of elements.
pub open spec fn indices_of<E: PrimeBagElement>(elements: Seq<E>) -> Seq<usize> {
    elements.map_values(|e: E| e.prime_index_spec())
}

/// How many copies of the element with table index `i` the backing value
/// `v` encodes.
pub open spec fn spec_count(v: nat, i: usize) -> nat {
    if valid_index(i) {
        multiplicity(v, nth_prime(i as int))
    } else {
        0
    }
}

/// Whether the backing value `v` encodes at least one copy of the element
/// with table index `i`.
pub open spec fn spec_contains(v: nat, i: usize) -> bool {
    valid_index(i) && v % nth_prime(i as int) == 0
}

/// Whether the bag value `a` encodes a superset of what `b` encodes: `b`
/// divides `a`.
pub open spec fn spec_superset(a: nat, b: nat) -> bool {
    a % b == 0
}

/// Whether the bag value `a` encodes a subset of what `b` encodes.
pub open spec fn spec_subset(a: nat, b: nat) -> bool {
    spec_superset(b, a)
}

/// A bag (multiset) of elements, stored as a single unsigned integer of
/// width `B`: the product, over the bag's members, of the table prime of
/// each member. The empty bag is one. Bags are immutable values; every
/// operation returns a new bag.
#[derive(Debug, PartialEq, Eq, PartialOrd, Ord, Hash)]
pub struct PrimeBag<B: Backing, E>(B, PhantomData<E>);

impl<B: Backing, E> Clone for PrimeBag<B, E> {
    /// An identical bag.
    fn clone(&self) -> (r: Self)
        ensures
            r == *self,
    {
        PrimeBag(self.0, PhantomData)
    }
}

impl<B: Backing, E> Copy for PrimeBag<B, E> {

}

impl<B: Backing, E> PrimeBag<B, E> {
    /// The backing integer as a mathematical value.
    pub closed spec fn value(self) -> nat {
        self.0.value()
    }

    /// The backing integer itself.
    pub closed spec fn inner_spec(self) -> B {
        self.0
    }

    /// Valid bags hold a positive integer.
    pub open spec fn wf(self) -> bool {
        self.value() >= 1
    }

    /// A bag's value fits its width.
    pub proof fn lemma_value_fits(self)
        ensures
            self.value() <= B::max_value(),
    {
        self.0.lemma_value_in_range();
    }

    /// The empty bag: the multiplicative identity.
    pub fn empty() -> (r: Self)
        ensures
            r.value() == 1,
            r.wf(),
    {
        PrimeBag(B::one(), PhantomData)
    }

    /// Wraps a raw backing value, the sole serialization surface.
    pub fn from_inner(inner: B) -> (r: Self)
        requires
            inner.value() >= 1,
        ensures
            r.inner_spec() == inner,
            r.value() == inner.value(),
            r.wf(),
    {
        PrimeBag(inner, PhantomData)
    }

    /// Unwraps the raw backing value, the sole serialization surface.
    pub fn into_inner(self) -> (r: B)
        ensures
            r == self.inner_spec(),
            r.value() == self.value(),
    {
        self.0
    }

    /// Whether the bag holds no element at all.
    pub fn is_empty(&self) -> (r: bool)
        ensures
            r == (self.value() == 1),
    {
        self.0.eq_value(B::one())
    }

    /// Whether every element of `rhs` is in this bag at least as often:
    /// whether `rhs`'s value divides this bag's value.
    pub fn is_superset(&self, rhs: &Self) -> (r: bool)
        requires
            rhs.wf(),
        ensures
            r == spec_superset(self.value(), rhs.value()),
    {
        is_multiple(self.0, rhs.0)
    }

    /// Whether every element of this bag is in `rhs` at least as often.
    pub fn is_subset(&self, rhs: &Self) -> (r: bool)
        requires
            self.wf(),
        ensures
            r == spec_subset(self.value(), rhs.value()),
    {
        rhs.is_superset(self)
    }

    /// The sum of two bags: each element as often as in both together.
    /// Fails when the product of the two values exceeds the width.
    pub fn try_sum(&self, rhs: &Self) -> (r: Option<Self>)
        requires
            self.wf(),
            rhs.wf(),
        ensures
            match r {
                Some(b) => b.value() == self.value() * rhs.value() && b.value() <= B::max_value()
                    && b.wf(),
                None => self.value() * rhs.value() > B::max_value(),
            },
    {
        match self.0.checked_mul(rhs.0) {
            Some(b) => {
                proof {
                    assert(self.value() * rhs.value() >= 1) by (nonlinear_arith)
                        requires
                            self.value() >= 1,
                            rhs.value() >= 1,
                    ;
                }
                Some(PrimeBag(b, PhantomData))
            },
            None => None,
        }
    }

    /// The union of two bags: each element as often as in the bag that has
    /// it more often; the least common multiple of the two values. Fails
    /// when that exceeds the width.
    pub fn try_union(&self, rhs: &Self) -> (r: Option<Self>)
        requires
            self.wf(),
            rhs.wf(),
        ensures
            match r {
                Some(b) => b.value() == lcm(self.value(), rhs.value()) && b.value()
                    <= B::max_value() && b.wf(),
                None => lcm(self.value(), rhs.value()) > B::max_value(),
            },
    {
        proof {
            lemma_gcd_divides(self.value(), rhs.value());
            lemma_divides_iff_mod_zero(
                gcd(self.value(), rhs.value()) as int,
                self.value() as int,
            );
            lemma_divides_le(gcd(self.value(), rhs.value()) as int, self.value() as int);
        }
        let g = self.0.gcd(rhs.0);
        let divided = self.0.div_value(g);
        proof {
            lemma_exact_div_pos(self.value(), gcd(self.value(), rhs.value()));
            assert(rhs.value() * divided.value() == divided.value() * rhs.value())
                by (nonlinear_arith);
            assert(divided.value() * rhs.value() >= 1) by (nonlinear_arith)
                requires
                    divided.value() >= 1,
                    rhs.value() >= 1,
            ;
        }
        match rhs.0.checked_mul(divided) {
            Some(b) => Some(PrimeBag(b, PhantomData)),
            None => None,
        }
    }

    /// The difference of two bags: each element of this bag as often as it
    /// is here beyond its count in `rhs`. Fails unless this bag is a
    /// superset of `rhs`.
    pub fn try_difference(&self, rhs: &Self) -> (r: Option<Self>)
        requires
            self.wf(),
            rhs.wf(),
        ensures
            match r {
                Some(b) => spec_superset(self.value(), rhs.value()) && self.value() == b.value()
                    * rhs.value() && b.wf(),
                None => !spec_superset(self.value(), rhs.value()),
            },
    {
        match div_exact(self.0, rhs.0) {
            Some(b) => {
                proof {
                    lemma_exact_div_pos(self.value(), rhs.value());
                }
                Some(PrimeBag(b, PhantomData))
            },
            None => None,
        }
    }

    /// The intersection of two bags: each element as often as in the bag
    /// that has it less often; the greatest common divisor of the two
    /// values. Never fails.
    pub fn intersection(&self, rhs: &Self) -> (r: Self)
        requires
            self.wf(),
            rhs.wf(),
        ensures
            r.value() == gcd(self.value(), rhs.value()),
            r.wf(),
    {
        proof {
            lemma_gcd_divides(self.value(), rhs.value());
        }
        let g = self.0.gcd(rhs.0);
        PrimeBag(g, PhantomData)
    }
}

impl<B: Backing, E: PrimeBagElement> PrimeBag<B, E> {
    /// Whether the bag contains `value`: whether `value`'s prime divides
    /// the bag's value.
    pub fn contains(&self, value: E) -> (r: bool)
        requires
            self.wf(),
        ensures
            r == spec_contains(self.value(), value.prime_index_spec()),
    {
        let u = value.to_prime_index();
        match get_prime::<B>(u) {
            Some(p) => {
                proof {
                    lemma_nth_prime_bounds(u as int);
                }
                is_multiple(self.0, p)
            },
            None => false,
        }
    }

    /// Whether the bag contains `value` at least `n` times: whether the
    /// `n`-th power of `value`'s prime divides the bag's value.
    pub fn contains_at_least(&self, value: E, n: u32) -> (r: bool)
        requires
            self.wf(),
        ensures
            r == (valid_index(value.prime_index_spec()) && self.value() as int % pow(
                nth_prime(value.prime_index_spec() as int) as int,
                n as nat,
            ) == 0),
    {
        let u = value.to_prime_index();
        match get_prime::<B>(u) {
            Some(p) => {
                proof {
                    lemma_nth_prime_bounds(u as int);
                    lemma_pow_positive(p.value() as int, n as nat);
                }
                match checked_pow(p, n) {
                    Some(q) => is_multiple(self.0, q),
                    None => {
                        proof {
                            self.0.lemma_value_in_range();
                            lemma_small_mod(
                                self.value(),
                                pow(p.value() as int, n as nat) as nat,
                            );
                        }
                        false
                    },
                }
            },
            None => false,
        }
    }

    /// How many copies of `value` the bag holds: how often `value`'s prime
    /// divides the bag's value.
    pub fn count_instances(&self, value: E) -> (r: usize)
        requires
            self.wf(),
        ensures
            r as nat == spec_count(self.value(), value.prime_index_spec()),
    {
        let u = value.to_prime_index();
        match get_prime::<B>(u) {
            Some(p) => {
                proof {
                    lemma_nth_prime_bounds(u as int);
                }
                count_factor(self.0, p)
            },
            None => 0,
        }
    }

    /// A new bag with one copy of `value` inserted. Fails when `value` has
    /// no table entry or the grown value would exceed the width.
    pub fn try_insert(&self, value: E) -> (r: Option<Self>)
        requires
            self.wf(),
        ensures
            match r {
                Some(b) => valid_index(value.prime_index_spec()) && b.value() == self.value()
                    * nth_prime(value.prime_index_spec() as int) && b.value() <= B::max_value()
                    && b.wf(),
                None => !(valid_index(value.prime_index_spec()) && self.value() * nth_prime(
                    value.prime_index_spec() as int,
                ) <= B::max_value()),
            },
    {
        let u = value.to_prime_index();
        match get_prime::<B>(u) {
            Some(p) => {
                proof {
                    lemma_nth_prime_bounds(u as int);
                }
                match self.0.checked_mul(p) {
                    Some(b) => {
                        proof {
                            assert(self.value() * p.value() >= 1) by (nonlinear_arith)
                                requires
                                    self.value() >= 1,
                                    p.value() >= 2,
                            ;
                        }
                        Some(PrimeBag(b, PhantomData))
                    },
                    None => None,
                }
            },
            None => None,
        }
    }

    /// A new bag with `count` copies of `value` inserted. Fails when
    /// `value` has no table entry or the grown value would exceed the
    /// width.
    pub fn try_insert_many(&self, value: E, count: u32) -> (r: Option<Self>)
        requires
            self.wf(),
        ensures
            match r {
                Some(b) => valid_index(value.prime_index_spec()) && b.value() as int == self.value()
                    * pow(nth_prime(value.prime_index_spec() as int) as int, count as nat)
                    && b.value() <= B::max_value() && b.wf(),
                None => !(valid_index(value.prime_index_spec()) && self.value() * pow(
                    nth_prime(value.prime_index_spec() as int) as int,
                    count as nat,
                ) <= B::max_value()),
            },
    {
        let u = value.to_prime_index();
        match get_prime::<B>(u) {
            Some(p) => {
                proof {
                    lemma_nth_prime_bounds(u as int);
                    lemma_pow_positive(p.value() as int, count as nat);
                }
                match checked_pow(p, count) {
                    Some(q) => {
                        match self.0.checked_mul(q) {
                            Some(b) => {
                                proof {
                                    assert(self.value() * q.value() >= 1) by (nonlinear_arith)
                                        requires
                                            self.value() >= 1,
                                            q.value() >= 1,
                                    ;
                                }
                                Some(PrimeBag(b, PhantomData))
                            },
                            None => None,
                        }
                    },
                    None => {
                        proof {
                            self.0.lemma_value_in_range();
                            let pw = pow(p.value() as int, count as nat);
                            assert(self.value() * pw > B::max_value()) by (nonlinear_arith)
                                requires
                                    self.value() >= 1,
                                    pw > B::max_value(),
                            ;
                        }
                        None
                    },
                }
            },
            None => None,
        }
    }

    /// A new bag with one copy of `value` removed. Fails when the bag does
    /// not contain `value`.
    pub fn try_remove(&self, value: E) -> (r: Option<Self>)
        requires
            self.wf(),
        ensures
            match r {
                Some(b) => spec_contains(self.value(), value.prime_index_spec()) && self.value()
                    == b.value() * nth_prime(value.prime_index_spec() as int) && b.wf(),
                None => !spec_contains(self.value(), value.prime_index_spec()),
            },
    {
        let u = value.to_prime_index();
        match get_prime::<B>(u) {
            Some(p) => {
                proof {
                    lemma_nth_prime_bounds(u as int);
                }
                match div_exact(self.0, p) {
                    Some(b) => {
                        proof {
                            lemma_exact_div_halves(self.value(), p.value());
                        }
                        Some(PrimeBag(b, PhantomData))
                    },
                    None => None,
                }
            },
            None => None,
        }
    }

    /// A new bag extended by every element of `elements`, in one all-or-
    /// nothing step: the value grows by the product of their primes. Fails
    /// when an element has no table entry or the grown value would exceed
    /// the width, and then no partial bag escapes.
    pub fn try_with_extended(&self, elements: &Vec<E>) -> (r: Option<Self>)
        requires
            self.wf(),
        ensures
            match r {
                Some(b) => all_indices_valid(indices_of(elements@)) && b.value() == self.value()
                    * prod_of_primes(indices_of(elements@)) && b.value() <= B::max_value()
                    && b.wf(),
                None => !(all_indices_valid(indices_of(elements@)) && self.value() * prod_of_primes(
                    indices_of(elements@),
                ) <= B::max_value()),
            },
    {
        let ghost idxs = indices_of(elements@);
        let mut b = self.0;
        let mut i: usize = 0;
        proof {
            assert(idxs.take(0int) =~= Seq::<usize>::empty());
            assert(prod_of_primes(Seq::<usize>::empty()) == 1);
            self.0.lemma_value_in_range();
        }
        while i < elements.len()
            invariant
                self.wf(),
                i <= elements.len(),
                idxs == indices_of(elements@),
                idxs.len() == elements.len(),
                all_indices_valid(idxs.take(i as int)),
                b.value() == self.value() * prod_of_primes(idxs.take(i as int)),
                1 <= b.value() <= B::max_value(),
            decreases elements.len() - i,
        {
            let u = (&elements[i]).to_prime_index();
            proof {
                assert(idxs[i as int] == u);
            }
            match get_prime::<B>(u) {
                Some(p) => {
                    proof {
                        lemma_nth_prime_bounds(u as int);
                    }
                    match b.checked_mul(p) {
                        Some(nb) => {
                            proof {
                                lemma_prod_take_step(idxs, i as int);
                                assert(self.value() * prod_of_primes(idxs.take(i as int)) * p.value()
                                    == self.value() * prod_of_primes(idxs.take(i as int + 1)))
                                    by (nonlinear_arith)
                                    requires
                                        prod_of_primes(idxs.take(i as int + 1)) == prod_of_primes(
                                            idxs.take(i as int),
                                        ) * nth_prime(idxs[i as int] as int),
                                        p.value() == nth_prime(idxs[i as int] as int),
                                ;
                                assert(nb.value() >= 1) by (nonlinear_arith)
                                    requires
                                        nb.value() == b.value() * p.value(),
                                        b.value() >= 1,
                                        p.value() >= 2,
                                ;
                                assert(forall|k: int|
                                    0 <= k < i as int + 1 ==> idxs.take(i as int + 1)[k]
                                        == #[trigger] idxs.take(i as int).push(idxs[i as int])[k]);
                            }
                            b = nb;
                            i = i + 1;
                        },
                        None => {
                            proof {
                                if all_indices_valid(idxs) {
                                    lemma_prod_split(idxs, i as int + 1);
                                    lemma_prod_take_step(idxs, i as int);
                                    assert(all_indices_valid(idxs.skip(i as int + 1))) by {
                                        assert(forall|k: int|
                                            0 <= k < idxs.len() - i - 1
                                                ==> idxs.skip(i as int + 1)[k] == #[trigger] idxs[k
                                                + i + 1]);
                                    }
                                    lemma_prod_of_primes_pos(idxs.skip(i as int + 1));
                                    assert(self.value() * prod_of_primes(idxs) > B::max_value())
                                        by (nonlinear_arith)
                                        requires
                                            prod_of_primes(idxs) == prod_of_primes(
                                                idxs.take(i as int + 1),
                                            ) * prod_of_primes(idxs.skip(i as int + 1)),
                                            prod_of_primes(idxs.take(i as int + 1))
                                                == prod_of_primes(idxs.take(i as int)) * nth_prime(
                                                idxs[i as int] as int,
                                            ),
                                            prod_of_primes(idxs.skip(i as int + 1)) >= 1,
                                            b.value() == self.value() * prod_of_primes(
                                                idxs.take(i as int),
                                            ),
                                            b.value() * nth_prime(idxs[i as int] as int)
                                                > B::max_value(),
                                            self.value() >= 1,
                                    ;
                                }
                            }
                            return None;
                        },
                    }
                },
                None => {
                    return None;
                },
            }
        }
        proof {
            assert(idxs.take(idxs.len() as int) =~= idxs);
        }
        Some(PrimeBag(b, PhantomData))
    }

    /// A new bag extended by every element of `elements`; the same
    /// all-or-nothing operation as `try_with_extended`.
    pub fn try_extend(&self, elements: &Vec<E>) -> (r: Option<Self>)
        requires
            self.wf(),
        ensures
            match r {
                Some(b) => all_indices_valid(indices_of(elements@)) && b.value() == self.value()
                    * prod_of_primes(indices_of(elements@)) && b.value() <= B::max_value()
                    && b.wf(),
                None => !(all_indices_valid(indices_of(elements@)) && self.value() * prod_of_primes(
                    indices_of(elements@),
                ) <= B::max_value()),
            },
    {
        self.try_with_extended(elements)
    }

    /// Walks the bag's elements in ascending table order, each element
    /// repeated by its multiplicity.
    pub fn into_iter(self) -> (r: crate::iter::PrimeBagIter<B, E>)
        requires
            self.wf(),
        ensures
            r.wf(),
            r.chunk_value() == self.value(),
            r.index_spec() == 0,
            r.remaining() == factor_seq_from(self.value(), 0),
    {
        crate::iter::PrimeBagIter::new(self.0)
    }

    /// Walks the bag's element groups in ascending table order, each
    /// present element once with its multiplicity.
    pub fn iter_groups(&self) -> (r: crate::group_iter::PrimeBagGroupIter<B, E>)
        requires
            self.wf(),
        ensures
            r.wf(),
            r.chunk_value() == self.value(),
            r.index_spec() == 0,
            r.remaining() == factor_seq_from(self.value(), 0),
    {
        crate::group_iter::PrimeBagGroupIter::new(self.0)
    }

    /// Builds a bag from a sequence of elements: the product of their
    /// primes. Fails when an element has no table entry or the product
    /// would exceed the width.
    pub fn try_from_iter(elements: &Vec<E>) -> (r: Option<Self>)
        ensures
            match r {
                Some(b) => all_indices_valid(indices_of(elements@)) && b.value() == prod_of_primes(
                    indices_of(elements@),
                ) && b.value() <= B::max_value() && b.wf(),
                None => !(all_indices_valid(indices_of(elements@)) && prod_of_primes(
                    indices_of(elements@),
                ) <= B::max_value()),
            },
    {
        Self::empty().try_with_extended(elements)
    }
}

impl<B: Backing, E> Default for PrimeBag<B, E> {
    /// The empty bag.
    fn default() -> (r: Self)
        ensures
            r.value() == 1,
            r.wf(),
    {
        PrimeBag(B::one(), PhantomData)
    }
}


impl<E> From<PrimeBag<u8, E>> for PrimeBag<u16, E> {
    /// The same bag in a wider backing: value-preserving.
    fn from(value: PrimeBag<u8, E>) -> (r: Self)
        ensures
            r.value() == value.value(),
    {
        PrimeBag(value.0 as u16, PhantomData)
    }
}

impl<E> vstd::std_specs::convert::FromSpecImpl<PrimeBag<u8, E>> for PrimeBag<u16, E> {
    open spec fn obeys_from_spec() -> bool {
        true
    }

    closed spec fn from_spec(t: PrimeBag<u8, E>) -> Self {
        PrimeBag(t.0 as u16, PhantomData)
    }
}


impl<E> From<PrimeBag<u8, E>> for PrimeBag<u32, E> {
    /// The same bag in a wider backing: value-preserving.
    fn from(value: PrimeBag<u8, E>) -> (r: Self)
        ensures
            r.value() == value.value(),
    {
        PrimeBag(value.0 as u32, PhantomData)
    }
}

impl<E> vstd::std_specs::convert::FromSpecImpl<PrimeBag<u8, E>> for PrimeBag<u32, E> {
    open spec fn obeys_from_spec() -> bool {
        true
    }

    closed spec fn from_spec(t: PrimeBag<u8, E>) -> Self {
        PrimeBag(t.0 as u32, PhantomData)
    }
}


impl<E> From<PrimeBag<u8, E>> for PrimeBag<u64, E> {
    /// The same bag in a wider backing: value-preserving.
    fn from(value: PrimeBag<u8, E>) -> (r: Self)
        ensures
            r.value() == value.value(),
    {
        PrimeBag(value.0 as u64, PhantomData)
    }
}

impl<E> vstd::std_specs::convert::FromSpecImpl<PrimeBag<u8, E>> for PrimeBag<u64, E> {
    open spec fn obeys_from_spec() -> bool {
        true
    }

    closed spec fn from_spec(t: PrimeBag<u8, E>) -> Self {
        PrimeBag(t.0 as u64, PhantomData)
    }
}


impl<E> From<PrimeBag<u8, E>> for PrimeBag<u128, E> {
    /// The same bag in a wider backing: value-preserving.
    fn from(value: PrimeBag<u8, E>) -> (r: Self)
        ensures
            r.value() == value.value(),
    {
        PrimeBag(value.0 as u128, PhantomData)
    }
}

impl<E> vstd::std_specs::convert::FromSpecImpl<PrimeBag<u8, E>> for PrimeBag<u128, E> {
    open spec fn obeys_from_spec() -> bool {
        true
    }

    closed spec fn from_spec(t: PrimeBag<u8, E>) -> Self {
        PrimeBag(t.0 as u128, PhantomData)
    }
}


impl<E> From<PrimeBag<u16, E>> for PrimeBag<u32, E> {
    /// The same bag in a wider backing: value-preserving.
    fn from(value: PrimeBag<u16, E>) -> (r: Self)
        ensures
            r.value() == value.value(),
    {
        PrimeBag(value.0 as u32, PhantomData)
    }
}

impl<E> vstd::std_specs::convert::FromSpecImpl<PrimeBag<u16, E>> for PrimeBag<u32, E> {
    open spec fn obeys_from_spec() -> bool {
        true
    }

    closed spec fn from_spec(t: PrimeBag<u16, E>) -> Self {
        PrimeBag(t.0 as u32, PhantomData)
    }
}


impl<E> From<PrimeBag<u16, E>> for PrimeBag<u64, E> {
    /// The same bag in a wider backing: value-preserving.
    fn from(value: PrimeBag<u16, E>) -> (r: Self)
        ensures
            r.value() == value.value(),
    {
        PrimeBag(value.0 as u64, PhantomData)
    }
}

impl<E> vstd::std_specs::convert::FromSpecImpl<PrimeBag<u16, E>> for PrimeBag<u64, E> {
    open spec fn obeys_from_spec() -> bool {
        true
    }

    closed spec fn from_spec(t: PrimeBag<u16, E>) -> Self {
        PrimeBag(t.0 as u64, PhantomData)
    }
}


impl<E> From<PrimeBag<u16, E>> for PrimeBag<u128, E> {
    /// The same bag in a wider backing: value-preserving.
    fn from(value: PrimeBag<u16, E>) -> (r: Self)
        ensures
            r.value() == value.value(),
    {
        PrimeBag(value.0 as u128, PhantomData)
    }
}

impl<E> vstd::std_specs::convert::FromSpecImpl<PrimeBag<u16, E>> for PrimeBag<u128, E> {
    open spec fn obeys_from_spec() -> bool {
        true
    }

    closed spec fn from_spec(t: PrimeBag<u16, E>) -> Self {
        PrimeBag(t.0 as u128, PhantomData)
    }
}


impl<E> From<PrimeBag<u32, E>> for PrimeBag<u64, E> {
    /// The same bag in a wider backing: value-preserving.
    fn from(value: PrimeBag<u32, E>) -> (r: Self)
        ensures
            r.value() == value.value(),
    {
        PrimeBag(value.0 as u64, PhantomData)
    }
}

impl<E> vstd::std_specs::convert::FromSpecImpl<PrimeBag<u32, E>> for PrimeBag<u64, E> {
    open spec fn obeys_from_spec() -> bool {
        true
    }

    closed spec fn from_spec(t: PrimeBag<u32, E>) -> Self {
        PrimeBag(t.0 as u64, PhantomData)
    }
}


impl<E> From<PrimeBag<u32, E>> for PrimeBag<u128, E> {
    /// The same bag in a wider backing: value-preserving.
    fn from(value: PrimeBag<u32, E>) -> (r: Self)
        ensures
            r.value() == value.value(),
    {
        PrimeBag(value.0 as u128, PhantomData)
    }
}

impl<E> vstd::std_specs::convert::FromSpecImpl<PrimeBag<u32, E>> for PrimeBag<u128, E> {
    open spec fn obeys_from_spec() -> bool {
        true
    }

    closed spec fn from_spec(t: PrimeBag<u32, E>) -> Self {
        PrimeBag(t.0 as u128, PhantomData)
    }
}


impl<E> From<PrimeBag<u64, E>> for PrimeBag<u128, E> {
    /// The same bag in a wider backing: value-preserving.
    fn from(value: PrimeBag<u64, E>) -> (r: Self)
        ensures
            r.value() == value.value(),
    {
        PrimeBag(value.0 as u128, PhantomData)
    }
}

impl<E> vstd::std_specs::convert::FromSpecImpl<PrimeBag<u64, E>> for PrimeBag<u128, E> {
    open spec fn obeys_from_spec() -> bool {
        true
    }

    closed spec fn from_spec(t: PrimeBag<u64, E>) -> Self {
        PrimeBag(t.0 as u128, PhantomData)
    }
}

/// A bag backed by eight bits.
pub type PrimeBag8<E> = PrimeBag<u8, E>;

/// A bag backed by sixteen bits.
pub type PrimeBag16<E> = PrimeBag<u16, E>;

/// A bag backed by thirty-two bits.
pub type PrimeBag32<E> = PrimeBag<u32, E>;

/// A bag backed by sixty-four bits.
pub type PrimeBag64<E> = PrimeBag<u64, E>;

/// A bag backed by one hundred twenty-eight bits.
pub type PrimeBag128<E> = PrimeBag<u128, E>;

} // verus!
