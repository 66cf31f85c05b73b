//! The backing capability: what a bag needs from its storage integer.
//! One implementation per unsigned width, so that the bag, the helpers and
//! the iterators are written once, generically.

use vstd::prelude::*;

verus! {

use crate::arith::gcd;

/// An unsigned integer width that can back a prime bag.
pub trait Backing: Sized + Copy {
    /// The value as a mathematical integer.
    spec fn value(self) -> nat;

    /// The largest value the width can hold.
    spec fn max_value() -> nat;

    /// Every value fits the width.
    proof fn lemma_value_in_range(self)
        ensures
            self.value() <= Self::max_value(),
    ;

    /// No width is wider than 128 bits.
    proof fn lemma_max_value_bound()
        ensures
            Self::max_value() <= u128::MAX,
    ;

    /// The multiplicative identity: the empty bag.
    fn one() -> (r: Self)
        ensures
            r.value() == 1,
    ;

    /// Embeds a table prime into the width.
    fn from_prime(p: u8) -> (r: Self)
        ensures
            r.value() == p as nat,
    ;

    fn is_zero(self) -> (r: bool)
        ensures
            r == (self.value() == 0),
    ;

    fn eq_value(self, other: Self) -> (r: bool)
        ensures
            r == (self.value() == other.value()),
    ;

    fn lt_value(self, other: Self) -> (r: bool)
        ensures
            r == (self.value() < other.value()),
    ;

    fn checked_mul(self, other: Self) -> (r: Option<Self>)
        ensures
            match r {
                Some(v) => v.value() == self.value() * other.value() && v.value()
                    <= Self::max_value(),
                None => self.value() * other.value() > Self::max_value(),
            },
    ;

    fn div_value(self, other: Self) -> (r: Self)
        requires
            other.value() >= 1,
        ensures
            r.value() == self.value() / other.value(),
    ;

    fn rem_value(self, other: Self) -> (r: Self)
        requires
            other.value() >= 1,
        ensures
            r.value() == self.value() % other.value(),
    ;

    /// The greatest common divisor with another value.
    fn gcd(self, other: Self) -> (r: Self)
        requires
            self.value() >= 1,
            other.value() >= 1,
        ensures
            r.value() == gcd(self.value(), other.value()),
    ;
}

/// Relies on gcd::binary_u8: the greatest common divisor of the two
/// arguments, computed by the binary algorithm.
#[verifier::external_body]
fn gcd_u8(a: u8, b: u8) -> (r: u8)
    requires
        a >= 1,
        b >= 1,
    ensures
        r as nat == gcd(a as nat, b as nat),
{
    gcd::binary_u8(a, b)
}

/// Relies on gcd::binary_u16: the greatest common divisor of the two
/// arguments, computed by the binary algorithm.
#[verifier::external_body]
fn gcd_u16(a: u16, b: u16) -> (r: u16)
    requires
        a >= 1,
        b >= 1,
    ensures
        r as nat == gcd(a as nat, b as nat),
{
    gcd::binary_u16(a, b)
}

/// Relies on gcd::binary_u32: the greatest common divisor of the two
/// arguments, computed by the binary algorithm.
#[verifier::external_body]
fn gcd_u32(a: u32, b: u32) -> (r: u32)
    requires
        a >= 1,
        b >= 1,
    ensures
        r as nat == gcd(a as nat, b as nat),
{
    gcd::binary_u32(a, b)
}

/// Relies on gcd::binary_u64: the greatest common divisor of the two
/// arguments, computed by the binary algorithm.
#[verifier::external_body]
fn gcd_u64(a: u64, b: u64) -> (r: u64)
    requires
        a >= 1,
        b >= 1,
    ensures
        r as nat == gcd(a as nat, b as nat),
{
    gcd::binary_u64(a, b)
}

/// Relies on gcd::binary_u128: the greatest common divisor of the two
/// arguments, computed by the binary algorithm.
#[verifier::external_body]
fn gcd_u128(a: u128, b: u128) -> (r: u128)
    requires
        a >= 1,
        b >= 1,
    ensures
        r as nat == gcd(a as nat, b as nat),
{
    gcd::binary_u128(a, b)
}

impl Backing for u8 {
    open spec fn value(self) -> nat {
        self as nat
    }

    open spec fn max_value() -> nat {
        u8::MAX as nat
    }

    proof fn lemma_value_in_range(self) {
    }

    proof fn lemma_max_value_bound() {
    }

    fn one() -> u8 {
        1
    }

    fn from_prime(p: u8) -> u8 {
        p
    }

    fn is_zero(self) -> bool {
        self == 0
    }

    fn eq_value(self, other: u8) -> bool {
        self == other
    }

    fn lt_value(self, other: u8) -> bool {
        self < other
    }

    fn checked_mul(self, other: u8) -> Option<u8> {
        u8::checked_mul(self, other)
    }

    fn div_value(self, other: u8) -> u8 {
        self / other
    }

    fn rem_value(self, other: u8) -> u8 {
        self % other
    }

    fn gcd(self, other: u8) -> u8 {
        gcd_u8(self, other)
    }
}

impl Backing for u16 {
    open spec fn value(self) -> nat {
        self as nat
    }

    open spec fn max_value() -> nat {
        u16::MAX as nat
    }

    proof fn lemma_value_in_range(self) {
    }

    proof fn lemma_max_value_bound() {
    }

    fn one() -> u16 {
        1
    }

    fn from_prime(p: u8) -> u16 {
        p as u16
    }

    fn is_zero(self) -> bool {
        self == 0
    }

    fn eq_value(self, other: u16) -> bool {
        self == other
    }

    fn lt_value(self, other: u16) -> bool {
        self < other
    }

    fn checked_mul(self, other: u16) -> Option<u16> {
        u16::checked_mul(self, other)
    }

    fn div_value(self, other: u16) -> u16 {
        self / other
    }

    fn rem_value(self, other: u16) -> u16 {
        self % other
    }

    fn gcd(self, other: u16) -> u16 {
        gcd_u16(self, other)
    }
}

impl Backing for u32 {
    open spec fn value(self) -> nat {
        self as nat
    }

    open spec fn max_value() -> nat {
        u32::MAX as nat
    }

    proof fn lemma_value_in_range(self) {
    }

    proof fn lemma_max_value_bound() {
    }

    fn one() -> u32 {
        1
    }

    fn from_prime(p: u8) -> u32 {
        p as u32
    }

    fn is_zero(self) -> bool {
        self == 0
    }

    fn eq_value(self, other: u32) -> bool {
        self == other
    }

    fn lt_value(self, other: u32) -> bool {
        self < other
    }

    fn checked_mul(self, other: u32) -> Option<u32> {
        u32::checked_mul(self, other)
    }

    fn div_value(self, other: u32) -> u32 {
        self / other
    }

    fn rem_value(self, other: u32) -> u32 {
        self % other
    }

    fn gcd(self, other: u32) -> u32 {
        gcd_u32(self, other)
    }
}

impl Backing for u64 {
    open spec fn value(self) -> nat {
        self as nat
    }

    open spec fn max_value() -> nat {
        u64::MAX as nat
    }

    proof fn lemma_value_in_range(self) {
    }

    proof fn lemma_max_value_bound() {
    }

    fn one() -> u64 {
        1
    }

    fn from_prime(p: u8) -> u64 {
        p as u64
    }

    fn is_zero(self) -> bool {
        self == 0
    }

    fn eq_value(self, other: u64) -> bool {
        self == other
    }

    fn lt_value(self, other: u64) -> bool {
        self < other
    }

    fn checked_mul(self, other: u64) -> Option<u64> {
        u64::checked_mul(self, other)
    }

    fn div_value(self, other: u64) -> u64 {
        self / other
    }

    fn rem_value(self, other: u64) -> u64 {
        self % other
    }

    fn gcd(self, other: u64) -> u64 {
        gcd_u64(self, other)
    }
}

impl Backing for u128 {
    open spec fn value(self) -> nat {
        self as nat
    }

    open spec fn max_value() -> nat {
        u128::MAX as nat
    }

    proof fn lemma_value_in_range(self) {
    }

    proof fn lemma_max_value_bound() {
    }

    fn one() -> u128 {
        1
    }

    fn from_prime(p: u8) -> u128 {
        p as u128
    }

    fn is_zero(self) -> bool {
        self == 0
    }

    fn eq_value(self, other: u128) -> bool {
        self == other
    }

    fn lt_value(self, other: u128) -> bool {
        self < other
    }

    fn checked_mul(self, other: u128) -> Option<u128> {
        u128::checked_mul(self, other)
    }

    fn div_value(self, other: u128) -> u128 {
        self / other
    }

    fn rem_value(self, other: u128) -> u128 {
        self % other
    }

    fn gcd(self, other: u128) -> u128 {
        gcd_u128(self, other)
    }
}

} // verus!
