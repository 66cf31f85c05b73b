//! The group iterator: decodes a bag into `(element, multiplicity)` pairs
//! in ascending table order, dividing each found prime out of the residual
//! chunk as often as it goes before moving on.

use core::marker::PhantomData;
use vstd::prelude::*;

verus! {

use vstd::arithmetic::power::pow;
use vstd::arithmetic::power::lemma_pow_positive;
use crate::arith::multiplicity;
use crate::backing::Backing;
use crate::helpers::div_exact;
use crate::helpers::factor_seq_from;
use crate::helpers::first_factor_from;
use crate::helpers::get_prime;
use crate::helpers::lemma_factor_seq_group;
use crate::helpers::lemma_factor_seq_skip;
use crate::helpers::lemma_factor_seq_step;
use crate::helpers::strip_factor;
use crate::prime_bag_element::PrimeBagElement;
use crate::primes::nth_prime;
use crate::primes::lemma_nth_prime_bounds;
use crate::NUM_PRIMES;

/// Walks the element groups encoded in a bag value in ascending table
/// order, emitting each present element once together with how often it is
/// present.
pub struct PrimeBagGroupIter<B: Backing, E> {
    chunk: B,
    prime_index: usize,
    phantom: PhantomData<E>,
}

impl<B: Backing, E> Clone for PrimeBagGroupIter<B, E> {
    /// An identical iterator.
    fn clone(&self) -> (r: Self)
        ensures
            r.chunk_value() == self.chunk_value(),
            r.index_spec() == self.index_spec(),
    {
        PrimeBagGroupIter {
            chunk: self.chunk,
            prime_index: self.prime_index,
            phantom: PhantomData,
        }
    }
}

impl<B: Backing, E> PrimeBagGroupIter<B, E> {
    /// The residual chunk: the part of the bag value not yet decoded.
    pub closed spec fn chunk_value(&self) -> nat {
        self.chunk.value()
    }

    /// The table position the walk has reached.
    pub closed spec fn index_spec(&self) -> usize {
        self.prime_index
    }

    /// The chunk of a live iterator is positive, and the walk position
    /// never passes the end of the table.
    pub open spec fn wf(&self) -> bool {
        self.chunk_value() >= 1 && self.index_spec() <= NUM_PRIMES
    }

    /// What iteration still has to produce, element by element: the factor
    /// decomposition of the residual chunk from the current position.
    pub open spec fn remaining(&self) -> Seq<usize> {
        factor_seq_from(self.chunk_value(), self.index_spec() as int)
    }

    /// A group iterator over the bag value `chunk`, starting at the head of
    /// the table.
    pub fn new(chunk: B) -> (r: Self)
        requires
            chunk.value() >= 1,
        ensures
            r.chunk_value() == chunk.value(),
            r.index_spec() == 0,
            r.wf(),
    {
        PrimeBagGroupIter { chunk, prime_index: 0, phantom: PhantomData }
    }
}

impl<B: Backing, E: PrimeBagElement> PrimeBagGroupIter<B, E> {
    /// The next group in ascending table order: the element of the smallest
    /// dividing table prime, together with its full multiplicity in the
    /// residual chunk, divided out entirely.
    pub fn next(&mut self) -> (r: Option<(E, usize)>)
        requires
            old(self).wf(),
        ensures
            final(self).wf(),
            old(self).remaining().len() == 0 ==> r is None && final(self).chunk_value() == old(
                self,
            ).chunk_value() && final(self).remaining().len() == 0,
            old(self).remaining().len() > 0 ==> ({
                let j = old(self).remaining()[0];
                let m = multiplicity(old(self).chunk_value(), nth_prime(j as int));
                r == Some((E::element_for_index(j), m as usize)) && m >= 1
                    && final(self).remaining() == old(self).remaining().skip(m as int)
                    && final(self).chunk_value() == old(self).chunk_value() / pow(
                    nth_prime(j as int) as int,
                    m,
                ) as nat
            }),
    {
        if self.chunk.eq_value(B::one()) {
            return None;
        }
        let ghost c0 = self.chunk_value();
        let ghost pi0 = self.index_spec() as int;
        while self.prime_index < NUM_PRIMES
            invariant
                self.wf(),
                c0 == old(self).chunk_value(),
                pi0 == old(self).index_spec() as int,
                self.chunk_value() == c0,
                c0 >= 2,
                pi0 <= self.index_spec() as int <= NUM_PRIMES as int,
                factor_seq_from(c0, pi0) == factor_seq_from(c0, self.index_spec() as int),
            decreases NUM_PRIMES as int - self.index_spec() as int,
        {
            let i = self.prime_index;
            let p = match get_prime::<B>(i) {
                Some(p) => p,
                None => {
                    return None;
                },
            };
            proof {
                lemma_nth_prime_bounds(i as int);
            }
            match div_exact(self.chunk, p) {
                Some(_once) => {
                    proof {
                        assert(first_factor_from(c0, i as int) == i as int);
                        lemma_factor_seq_step(c0, i as int);
                        lemma_factor_seq_group(c0, i as int);
                    }
                    let (res, m) = strip_factor(self.chunk, p);
                    proof {
                        lemma_pow_positive(p.value() as int, m as nat);
                        vstd::arithmetic::div_mod::lemma_div_by_multiple(
                            res.value() as int,
                            pow(p.value() as int, m as nat),
                        );
                        assert(res.value() as int * pow(p.value() as int, m as nat) == pow(
                            p.value() as int,
                            m as nat,
                        ) * res.value() as int) by (nonlinear_arith);
                    }
                    self.chunk = res;
                    self.prime_index = i + 1;
                    return Some((E::from_prime_index(i), m));
                },
                None => {
                    proof {
                        lemma_factor_seq_skip(c0, i as int);
                    }
                    self.prime_index = i + 1;
                },
            }
        }
        proof {
            assert(first_factor_from(c0, NUM_PRIMES as int) == NUM_PRIMES as int);
            assert(factor_seq_from(c0, NUM_PRIMES as int).len() == 0);
        }
        None
    }
}

/// A group iterator backed by eight bits.
pub type PrimeBagGroupIter8<E> = PrimeBagGroupIter<u8, E>;

/// A group iterator backed by sixteen bits.
pub type PrimeBagGroupIter16<E> = PrimeBagGroupIter<u16, E>;

/// A group iterator backed by thirty-two bits.
pub type PrimeBagGroupIter32<E> = PrimeBagGroupIter<u32, E>;

/// A group iterator backed by sixty-four bits.
pub type PrimeBagGroupIter64<E> = PrimeBagGroupIter<u64, E>;

/// A group iterator backed by one hundred twenty-eight bits.
pub type PrimeBagGroupIter128<E> = PrimeBagGroupIter<u128, E>;

} // verus!
