//! The element iterator: decodes a bag into its elements in ascending
//! table order, each element repeated by its multiplicity, by repeated
//! trial division; and in descending order by binary search against the
//! table.

use core::marker::PhantomData;
use vstd::prelude::*;

verus! {

use crate::backing::Backing;
use crate::helpers::factor_seq_from;
use crate::helpers::first_factor_from;
use crate::helpers::div_exact;
use crate::helpers::get_prime;
use crate::arith::lemma_exact_div_halves;
use crate::helpers::lemma_factor_seq_skip;
use crate::helpers::lemma_factor_seq_step;
use crate::helpers::count_chunk;
use crate::helpers::strip_twos;
use crate::helpers::floor_log;
use crate::helpers::find_largest_possible_prime;
use crate::helpers::is_multiple;
use crate::helpers::odd_part;
use crate::arith::multiplicity;
use crate::prime_bag_element::PrimeBagElement;
use crate::primes::lemma_nth_prime_sorted;
use crate::primes::prime_entry;
use vstd::arithmetic::logarithm::log;
use crate::primes::nth_prime;
use crate::primes::lemma_nth_prime_bounds;
use crate::NUM_PRIMES;

/// Walks the elements encoded in a bag value in ascending table order,
/// dividing each found prime out of the residual chunk.
pub struct PrimeBagIter<B: Backing, E> {
    chunk: B,
    prime_index: usize,
    phantom: PhantomData<E>,
}

impl<B: Backing, E> Clone for PrimeBagIter<B, E> {
    /// An identical iterator.
    fn clone(&self) -> (r: Self)
        ensures
            r.chunk_value() == self.chunk_value(),
            r.index_spec() == self.index_spec(),
    {
        PrimeBagIter { chunk: self.chunk, prime_index: self.prime_index, phantom: PhantomData }
    }
}

impl<B: Backing, E> PrimeBagIter<B, E> {
    /// The residual chunk: the part of the bag value not yet decoded.
    pub closed spec fn chunk_value(&self) -> nat {
        self.chunk.value()
    }

    /// The table position the forward walk has reached.
    pub closed spec fn index_spec(&self) -> usize {
        self.prime_index
    }

    /// The chunk of a live iterator is positive, and the walk position
    /// never passes the end of the table.
    pub open spec fn wf(&self) -> bool {
        self.chunk_value() >= 1 && self.index_spec() <= NUM_PRIMES
    }

    /// What forward iteration still has to produce: the factor
    /// decomposition of the residual chunk from the current position.
    pub open spec fn remaining(&self) -> Seq<usize> {
        factor_seq_from(self.chunk_value(), self.index_spec() as int)
    }

    /// An iterator over the bag value `chunk`, starting at the head of the
    /// table.
    pub fn new(chunk: B) -> (r: Self)
        requires
            chunk.value() >= 1,
        ensures
            r.chunk_value() == chunk.value(),
            r.index_spec() == 0,
            r.wf(),
    {
        PrimeBagIter { chunk, prime_index: 0, phantom: PhantomData }
    }
}

impl<B: Backing, E: PrimeBagElement> PrimeBagIter<B, E> {
    /// The next element in ascending table order: the smallest table prime
    /// dividing the residual chunk, divided out once.
    pub fn next(&mut self) -> (r: Option<E>)
        requires
            old(self).wf(),
        ensures
            final(self).wf(),
            old(self).remaining().len() == 0 ==> r is None && final(self).chunk_value() == old(
                self,
            ).chunk_value() && final(self).remaining().len() == 0,
            old(self).remaining().len() > 0 ==> r == Some(
                E::element_for_index(old(self).remaining()[0]),
            ) && final(self).remaining() == old(self).remaining().drop_first() && old(
                self,
            ).chunk_value() == final(self).chunk_value() * nth_prime(
                old(self).remaining()[0] as int,
            ),
    {
        if self.chunk.eq_value(B::one()) {
            return None;
        }
        let ghost c0 = self.chunk_value();
        let ghost pi0 = self.index_spec() as int;
        while self.prime_index < NUM_PRIMES
            invariant
                self.wf(),
                c0 == old(self).chunk_value(),
                pi0 == old(self).index_spec() as int,
                self.chunk_value() == c0,
                c0 >= 2,
                pi0 <= self.index_spec() as int <= NUM_PRIMES as int,
                factor_seq_from(c0, pi0) == factor_seq_from(c0, self.index_spec() as int),
            decreases NUM_PRIMES as int - self.index_spec() as int,
        {
            let i = self.prime_index;
            let p = match get_prime::<B>(i) {
                Some(p) => p,
                None => {
                    return None;
                },
            };
            proof {
                lemma_nth_prime_bounds(i as int);
            }
            match div_exact(self.chunk, p) {
                Some(new_chunk) => {
                    proof {
                        assert(first_factor_from(c0, i as int) == i as int);
                        lemma_factor_seq_step(c0, i as int);
                        lemma_exact_div_halves(c0, p.value());
                        assert(old(self).remaining() == factor_seq_from(c0, i as int));
                        assert(factor_seq_from(c0, i as int).len() >= 1);
                        assert(factor_seq_from(c0, i as int)[0] == i as usize);
                        assert(new_chunk.value() == c0 / nth_prime(i as int));
                    }
                    self.chunk = new_chunk;
                    proof {
                        assert(self.remaining() == factor_seq_from(
                            c0 / nth_prime(i as int),
                            i as int,
                        ));
                        assert(self.remaining() == old(self).remaining().drop_first());
                        assert(c0 == self.chunk_value() * nth_prime(i as int));
                    }
                    return Some(E::from_prime_index(i));
                },
                None => {
                    proof {
                        lemma_factor_seq_skip(c0, i as int);
                    }
                    self.prime_index = i + 1;
                },
            }
        }
        proof {
            assert(first_factor_from(c0, NUM_PRIMES as int) == NUM_PRIMES as int);
            assert(factor_seq_from(c0, NUM_PRIMES as int).len() == 0);
        }
        None
    }

    /// How many elements remain, consuming the iterator: the length of the
    /// residual decomposition.
    pub fn count(self) -> (r: usize)
        requires
            self.wf(),
        ensures
            r as nat == self.remaining().len(),
    {
        count_chunk(self.chunk, self.prime_index)
    }

    /// Skips `n` elements and produces the one after them, or nothing when
    /// fewer than `n + 1` remain.
    pub fn nth(&mut self, n: usize) -> (r: Option<E>)
        requires
            old(self).wf(),
        ensures
            final(self).wf(),
            (n as int) < old(self).remaining().len() ==> r == Some(
                E::element_for_index(old(self).remaining()[n as int]),
            ) && final(self).remaining() == old(self).remaining().skip(n as int + 1),
            (n as int) >= old(self).remaining().len() ==> r is None,
    {
        let ghost rem0 = old(self).remaining();
        let mut k: usize = 0;
        proof {
            assert(rem0.skip(0) =~= rem0);
        }
        while k < n
            invariant
                self.wf(),
                k <= n,
                k as int <= rem0.len(),
                rem0 == old(self).remaining(),
                self.remaining() == rem0.skip(k as int),
            decreases n - k,
        {
            let ghost cur = self.remaining();
            match self.next() {
                Some(_discard) => {
                    proof {
                        assert(cur.len() > 0);
                        assert(cur.drop_first() =~= rem0.skip(k as int + 1));
                    }
                    k = k + 1;
                },
                None => {
                    return None;
                },
            }
        }
        let ghost cur = self.remaining();
        let r = self.next();
        proof {
            if cur.len() > 0 {
                assert((n as int) < rem0.len());
                assert(cur[0] == rem0[n as int]);
                assert(cur.drop_first() =~= rem0.skip(n as int + 1));
            }
        }
        r
    }

    /// The remaining element count without consuming: an exact count of the
    /// factors of two plus, when an odd residual is left, a lower bound of
    /// one and an upper bound from the logarithm of the residual in the
    /// next table prime.
    pub fn size_hint(&self) -> (r: (usize, Option<usize>))
        requires
            self.wf(),
        ensures
            r.0 as nat == spec_hint_lower(self.chunk_value(), self.index_spec() as int),
            match r.1 {
                Some(u) => spec_hint_upper(self.chunk_value(), self.index_spec() as int) == Some(
                    u as nat,
                ),
                None => spec_hint_upper(self.chunk_value(), self.index_spec() as int) is None,
            },
    {
        let (w, t) = if self.prime_index == 0 {
            let (res, tz) = strip_twos(self.chunk);
            (res, tz)
        } else {
            (self.chunk, 0usize)
        };
        let j = if self.prime_index == 0 {
            1usize
        } else {
            self.prime_index
        };
        if w.eq_value(B::one()) {
            return (t, Some(t));
        }
        match get_prime::<B>(j) {
            Some(p) => {
                proof {
                    lemma_nth_prime_bounds(j as int);
                }
                let lg = floor_log(p, w);
                (t + 1, Some(t + lg))
            },
            None => {
                (t, None)
            },
        }
    }

    /// The next element in descending table order: strips factors of two
    /// while at the head of the table, and otherwise finds the largest
    /// dividing table prime by binary search and a downward walk, and
    /// divides it out of the chunk once.
    pub fn next_back(&mut self) -> (r: Option<E>)
        requires
            old(self).wf(),
        ensures
            final(self).wf(),
            final(self).index_spec() == old(self).index_spec(),
            match back_step(old(self).chunk_value(), old(self).index_spec() as int) {
                None => r is None && final(self).chunk_value() == old(self).chunk_value(),
                Some((l, nv)) => r == Some(E::element_for_index(l as usize))
                    && final(self).chunk_value() == nv,
            },
    {
        if self.chunk.eq_value(B::one()) {
            return None;
        }
        let ghost v = self.chunk_value();
        let ghost pi = self.index_spec() as int;
        let (start, w) = if self.prime_index == 0 {
            let (res, _tz) = strip_twos(self.chunk);
            if res.eq_value(B::one()) {
                let two = B::from_prime(2);
                self.chunk = self.chunk.div_value(two);
                proof {
                    assert(v / 2 >= 1);
                }
                return Some(E::from_prime_index(0));
            }
            (1usize, res)
        } else {
            (self.prime_index, self.chunk)
        };
        let ghost lo = start as int;
        proof {
            assert(w.value() >= 2);
        }
        match find_largest_possible_prime(start, w) {
            Ok(index) => {
                proof {
                    lemma_nth_prime_bounds(index as int);
                    vstd::arithmetic::div_mod::lemma_mod_self_0(w.value() as int);
                    assert forall|k: int| index < k < NUM_PRIMES as int implies w.value()
                        % nth_prime(k) != 0 by {
                        lemma_nth_prime_sorted(index as int, k);
                        lemma_no_small_mod(w.value(), nth_prime(k));
                    }
                    lemma_largest_factor_found(w.value(), lo, NUM_PRIMES as int, index as int);
                    if pi == 0 {
                        lemma_odd_part_le(v);
                    }
                    lemma_div_pos(v, w.value());
                }
                self.chunk = self.chunk.div_value(w);
                return Some(E::from_prime_index(index));
            },
            Err(insertion) => {
                proof {
                    assert forall|k: int| insertion <= k < NUM_PRIMES as int implies w.value()
                        % nth_prime(k) != 0 by {
                        lemma_no_small_mod(w.value(), nth_prime(k));
                    }
                }
                let mut j = insertion;
                while j > start
                    invariant
                        start <= j <= insertion,
                        insertion <= NUM_PRIMES,
                        w.value() >= 2,
                        self.wf(),
                        v == old(self).chunk_value(),
                        pi == old(self).index_spec() as int,
                        self.chunk_value() == v,
                        self.index_spec() as int == pi,
                        v >= 2,
                        lo == start as int,
                        1 <= start,
                        pi == 0 ==> w.value() == odd_part(v) && odd_part(v) != 1 && start == 1,
                        pi != 0 ==> w.value() == v && start as int == pi,
                        forall|k: int| j <= k < NUM_PRIMES as int ==> w.value() % nth_prime(k)
                            != 0,
                    decreases j,
                {
                    let jj = j - 1;
                    let p = B::from_prime(prime_entry(jj));
                    proof {
                        lemma_nth_prime_bounds(jj as int);
                    }
                    if is_multiple(w, p) {
                        proof {
                            lemma_largest_factor_found(
                                w.value(),
                                lo,
                                NUM_PRIMES as int,
                                jj as int,
                            );
                            vstd::arithmetic::div_mod::lemma_mod_is_zero(w.value(), p.value());
                            if pi == 0 {
                                lemma_odd_part_le(v);
                            }
                            lemma_div_pos(v, p.value());
                        }
                        self.chunk = self.chunk.div_value(p);
                        return Some(E::from_prime_index(jj));
                    }
                    j = jj;
                }
                proof {
                    lemma_largest_factor_none(w.value(), lo, NUM_PRIMES as int);
                }
                return None;
            },
        }
    }

    /// The final element of the iteration: one backward step.
    pub fn last(self) -> (r: Option<E>)
        requires
            self.wf(),
        ensures
            match back_step(self.chunk_value(), self.index_spec() as int) {
                None => r is None,
                Some((l, _nv)) => r == Some(E::element_for_index(l as usize)),
            },
    {
        let mut it = self;
        it.next_back()
    }
}

/// A number smaller than the modulus but at least one is no multiple of it.
proof fn lemma_no_small_mod(w: nat, p: nat)
    requires
        1 <= w < p,
    ensures
        w % p != 0,
{
    vstd::arithmetic::div_mod::lemma_small_mod(w, p);
}

/// The quotient of a number by a divisor it dominates is positive.
proof fn lemma_div_pos(v: nat, d: nat)
    requires
        1 <= d <= v,
    ensures
        v / d >= 1,
{
    vstd::arithmetic::div_mod::lemma_div_is_ordered(d as int, v as int, d as int);
    vstd::arithmetic::div_mod::lemma_div_by_self(d as int);
}

/// The odd part of a number never exceeds it.
proof fn lemma_odd_part_le(v: nat)
    ensures
        odd_part(v) <= v,
    decreases v,
{
    if v >= 1 && v % 2 == 0 {
        crate::arith::lemma_exact_div_halves(v, 2);
        lemma_odd_part_le((v / 2) as nat);
    }
}




/// The lower bound that `size_hint` reports for the state `(v, pi)`: the
/// exact count of twos still to come, plus one when an odd residual is
/// left.
pub open spec fn spec_hint_lower(v: nat, pi: int) -> nat {
    let t: nat = if pi == 0 {
        multiplicity(v, 2)
    } else {
        0
    };
    let w: nat = if pi == 0 {
        odd_part(v)
    } else {
        v
    };
    let j: int = if pi == 0 {
        1
    } else {
        pi
    };
    if w == 1 || j >= NUM_PRIMES as int {
        t
    } else {
        t + 1
    }
}

/// The upper bound that `size_hint` reports for the state `(v, pi)`: the
/// count of twos plus the floor logarithm of the odd residual in the next
/// table prime; none when the walk is already past the table.
pub open spec fn spec_hint_upper(v: nat, pi: int) -> Option<nat> {
    let t: nat = if pi == 0 {
        multiplicity(v, 2)
    } else {
        0
    };
    let w: nat = if pi == 0 {
        odd_part(v)
    } else {
        v
    };
    let j: int = if pi == 0 {
        1
    } else {
        pi
    };
    if w == 1 {
        Some(t)
    } else if j >= NUM_PRIMES as int {
        None
    } else {
        Some((t + log(nth_prime(j) as int, w as int)) as nat)
    }
}

/// The largest table position in `[lo, hi)` whose prime divides `v`, or
/// minus one when there is none.
pub open spec fn largest_factor_in(v: nat, lo: int, hi: int) -> int
    decreases hi - lo,
{
    if hi <= lo {
        -1
    } else if v % nth_prime(hi - 1) == 0 {
        hi - 1
    } else {
        largest_factor_in(v, lo, hi - 1)
    }
}

/// A position that divides, above which none divides, is the largest
/// dividing position.
pub proof fn lemma_largest_factor_found(v: nat, lo: int, hi: int, l: int)
    requires
        lo <= l < hi,
        v % nth_prime(l) == 0,
        forall|k: int| l < k < hi ==> v % nth_prime(k) != 0,
    ensures
        largest_factor_in(v, lo, hi) == l,
    decreases hi - lo,
{
    if hi - 1 > l {
        lemma_largest_factor_found(v, lo, hi - 1, l);
    }
}

/// When no position in the range divides, the search comes up empty.
pub proof fn lemma_largest_factor_none(v: nat, lo: int, hi: int)
    requires
        forall|k: int| lo <= k < hi ==> v % nth_prime(k) != 0,
    ensures
        largest_factor_in(v, lo, hi) == -1,
    decreases hi - lo,
{
    if hi > lo {
        lemma_largest_factor_none(v, lo, hi - 1);
    }
}

/// What one backward step from the state `(v, pi)` produces: the emitted
/// table position and the new residual chunk, or nothing when the walk is
/// done. Past the factors of two, the step emits the largest table prime
/// dividing the odd residual.
pub open spec fn back_step(v: nat, pi: int) -> Option<(int, nat)> {
    if v <= 1 {
        None
    } else if pi == 0 && odd_part(v) == 1 {
        Some((0, v / 2))
    } else {
        let lo: int = if pi == 0 {
            1
        } else {
            pi
        };
        let w: nat = if pi == 0 {
            odd_part(v)
        } else {
            v
        };
        let l = largest_factor_in(w, lo, NUM_PRIMES as int);
        if l >= lo {
            Some((l, v / nth_prime(l)))
        } else {
            None
        }
    }
}
/// An element iterator backed by eight bits.
pub type PrimeBagIter8<E> = PrimeBagIter<u8, E>;

/// An element iterator backed by sixteen bits.
pub type PrimeBagIter16<E> = PrimeBagIter<u16, E>;

/// An element iterator backed by thirty-two bits.
pub type PrimeBagIter32<E> = PrimeBagIter<u32, E>;

/// An element iterator backed by sixty-four bits.
pub type PrimeBagIter64<E> = PrimeBagIter<u64, E>;

/// An element iterator backed by one hundred twenty-eight bits.
pub type PrimeBagIter128<E> = PrimeBagIter<u128, E>;


/// The search result is the none marker or a position inside the range.
pub proof fn lemma_largest_factor_range(v: nat, lo: int, hi: int)
    ensures
        largest_factor_in(v, lo, hi) == -1 || lo <= largest_factor_in(v, lo, hi) < hi,
    decreases hi - lo,
{
    if hi > lo && v % nth_prime(hi - 1) != 0 {
        lemma_largest_factor_range(v, lo, hi - 1);
    }
}

/// The whole backward iteration from a value: the emitted table positions,
/// step by step, until a step produces nothing.
pub open spec fn back_seq(v: nat) -> Seq<usize>
    decreases v via back_seq_decreases
{
    match back_step(v, 0) {
        None => Seq::empty(),
        Some((l, nv)) => seq![l as usize] + back_seq(nv),
    }
}

#[via_fn]
proof fn back_seq_decreases(v: nat) {
    match back_step(v, 0) {
        None => {
        },
        Some((l, nv)) => {
            assert(v >= 2);
            if odd_part(v) == 1 {
                vstd::arithmetic::div_mod::lemma_div_decreases(v as int, 2);
            } else {
                lemma_largest_factor_range(odd_part(v), 1, NUM_PRIMES as int);
                lemma_nth_prime_bounds(l);
                vstd::arithmetic::div_mod::lemma_div_decreases(v as int, nth_prime(l) as int);
            }
        },
    }
}
} // verus!
