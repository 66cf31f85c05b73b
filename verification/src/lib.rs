//! A bag (multiset) datatype that uses a single unsigned integer for storage.
//!
//! Each possible element is assigned a prime number; the contents of the bag
//! are represented by the product of the primes of its members, with
//! multiplicity as exponent. Set-algebra operations then reduce to integer
//! arithmetic: insertion is multiplication, removal is exact division,
//! membership is divisibility, intersection is the greatest common divisor
//! and union is the least common multiple.

pub mod arith;
pub mod backing;
pub mod group_iter;
pub mod helpers;
pub mod iter;
pub mod laws;
pub mod prime_bag;
pub mod prime_bag_element;
pub mod primes;

pub use backing::Backing;
pub use group_iter::PrimeBagGroupIter;
pub use group_iter::PrimeBagGroupIter8;
pub use group_iter::PrimeBagGroupIter16;
pub use group_iter::PrimeBagGroupIter32;
pub use group_iter::PrimeBagGroupIter64;
pub use group_iter::PrimeBagGroupIter128;
pub use iter::PrimeBagIter;
pub use iter::PrimeBagIter8;
pub use iter::PrimeBagIter16;
pub use iter::PrimeBagIter32;
pub use iter::PrimeBagIter64;
pub use iter::PrimeBagIter128;
pub use prime_bag::PrimeBag;
pub use prime_bag::PrimeBag8;
pub use prime_bag::PrimeBag16;
pub use prime_bag::PrimeBag32;
pub use prime_bag::PrimeBag64;
pub use prime_bag::PrimeBag128;
pub use prime_bag_element::PrimeBagElement;

use vstd::prelude::*;

verus! {

/// The number of primes in the per-width prime table.
pub const NUM_PRIMES: usize = 32;

} // verus!
