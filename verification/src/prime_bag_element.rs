//! The element capability: the application-supplied mapping between
//! element values and their positions in the prime table.

use vstd::prelude::*;

verus! {

/// A type whose values can be put into a prime bag.
///
/// The embedding application assigns each element a small index into the
/// prime table. Both directions of the mapping are pure functions; the
/// application is expected to make them mutually inverse over the indices
/// it actually inserts, but this module does not police that. The element
/// mapped from an index that was never inserted (one that arrived by
/// deserialization or by combining bags) is the mapping's own business.
pub trait PrimeBagElement: Sized {
    /// The table index assigned to this element.
    spec fn prime_index_spec(&self) -> usize;

    /// The element standing for a table index.
    spec fn element_for_index(value: usize) -> Self;

    /// Maps this element to its table index.
    fn to_prime_index(&self) -> (r: usize)
        ensures
            r == self.prime_index_spec(),
    ;

    /// Maps a table index back to an element.
    fn from_prime_index(value: usize) -> (r: Self)
        ensures
            r == Self::element_for_index(value),
    ;
}

/// The identity mapping: an index stands for itself.
impl PrimeBagElement for usize {
    open spec fn prime_index_spec(&self) -> usize {
        *self
    }

    open spec fn element_for_index(value: usize) -> usize {
        value
    }

    fn to_prime_index(&self) -> usize {
        *self
    }

    fn from_prime_index(value: usize) -> usize {
        value
    }
}

} // verus!
