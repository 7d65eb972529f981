//! The arithmetic that the kernels need of a value type, and what it is
//! for the primitive integers.

use vstd::prelude::*;

verus! {

/// A value type that the kernels can compute with: it has a zero, a sum
/// and a product.
///
/// What a sum or a product is when the mathematical result does not fit is
/// the type's own affair; the kernels only apply the operations. For the
/// primitive integers both wrap around, as `wrapping_add` and `wrapping_mul`
/// do, so they are defined for every pair of values and never panic.
pub trait Numeric: Copy {
    /// The additive identity.
    spec fn spec_zero() -> Self;

    /// The sum of two values.
    spec fn spec_plus(self, rhs: Self) -> Self;

    /// The product of two values.
    spec fn spec_times(self, rhs: Self) -> Self;

    /// Returns the additive identity.
    fn zero() -> (r: Self)
        ensures
            r == Self::spec_zero(),
    ;

    /// Returns the sum of `self` and `rhs`.
    fn plus(self, rhs: Self) -> (r: Self)
        ensures
            r == self.spec_plus(rhs),
    ;

    /// Returns the product of `self` and `rhs`.
    fn times(self, rhs: Self) -> (r: Self)
        ensures
            r == self.spec_times(rhs),
    ;
}

/// `num_traits::Zero::zero` for `i8`, which that crate defines as the
/// literal `0`.
#[verifier::external_body]
fn zero_i8() -> (r: i8)
    ensures
        r == 0,
{
    <i8 as num_traits::Zero>::zero()
}

impl Numeric for i8 {
    open spec fn spec_zero() -> i8 {
        0
    }

    open spec fn spec_plus(self, rhs: i8) -> i8 {
        self.wrapping_add(rhs)
    }

    open spec fn spec_times(self, rhs: i8) -> i8 {
        self.wrapping_mul(rhs)
    }

    fn zero() -> (r: i8) {
        zero_i8()
    }

    fn plus(self, rhs: i8) -> (r: i8) {
        self.wrapping_add(rhs)
    }

    fn times(self, rhs: i8) -> (r: i8) {
        self.wrapping_mul(rhs)
    }
}

/// `num_traits::Zero::zero` for `i16`, which that crate defines as the
/// literal `0`.
#[verifier::external_body]
fn zero_i16() -> (r: i16)
    ensures
        r == 0,
{
    <i16 as num_traits::Zero>::zero()
}

impl Numeric for i16 {
    open spec fn spec_zero() -> i16 {
        0
    }

    open spec fn spec_plus(self, rhs: i16) -> i16 {
        self.wrapping_add(rhs)
    }

    open spec fn spec_times(self, rhs: i16) -> i16 {
        self.wrapping_mul(rhs)
    }

    fn zero() -> (r: i16) {
        zero_i16()
    }

    fn plus(self, rhs: i16) -> (r: i16) {
        self.wrapping_add(rhs)
    }

    fn times(self, rhs: i16) -> (r: i16) {
        self.wrapping_mul(rhs)
    }
}

/// `num_traits::Zero::zero` for `i32`, which that crate defines as the
/// literal `0`.
#[verifier::external_body]
fn zero_i32() -> (r: i32)
    ensures
        r == 0,
{
    <i32 as num_traits::Zero>::zero()
}

impl Numeric for i32 {
    open spec fn spec_zero() -> i32 {
        0
    }

    open spec fn spec_plus(self, rhs: i32) -> i32 {
        self.wrapping_add(rhs)
    }

    open spec fn spec_times(self, rhs: i32) -> i32 {
        self.wrapping_mul(rhs)
    }

    fn zero() -> (r: i32) {
        zero_i32()
    }

    fn plus(self, rhs: i32) -> (r: i32) {
        self.wrapping_add(rhs)
    }

    fn times(self, rhs: i32) -> (r: i32) {
        self.wrapping_mul(rhs)
    }
}

/// `num_traits::Zero::zero` for `i64`, which that crate defines as the
/// literal `0`.
#[verifier::external_body]
fn zero_i64() -> (r: i64)
    ensures
        r == 0,
{
    <i64 as num_traits::Zero>::zero()
}

impl Numeric for i64 {
    open spec fn spec_zero() -> i64 {
        0
    }

    open spec fn spec_plus(self, rhs: i64) -> i64 {
        self.wrapping_add(rhs)
    }

    open spec fn spec_times(self, rhs: i64) -> i64 {
        self.wrapping_mul(rhs)
    }

    fn zero() -> (r: i64) {
        zero_i64()
    }

    fn plus(self, rhs: i64) -> (r: i64) {
        self.wrapping_add(rhs)
    }

    fn times(self, rhs: i64) -> (r: i64) {
        self.wrapping_mul(rhs)
    }
}

/// `num_traits::Zero::zero` for `i128`, which that crate defines as the
/// literal `0`.
#[verifier::external_body]
fn zero_i128() -> (r: i128)
    ensures
        r == 0,
{
    <i128 as num_traits::Zero>::zero()
}

impl Numeric for i128 {
    open spec fn spec_zero() -> i128 {
        0
    }

    open spec fn spec_plus(self, rhs: i128) -> i128 {
        self.wrapping_add(rhs)
    }

    open spec fn spec_times(self, rhs: i128) -> i128 {
        self.wrapping_mul(rhs)
    }

    fn zero() -> (r: i128) {
        zero_i128()
    }

    fn plus(self, rhs: i128) -> (r: i128) {
        self.wrapping_add(rhs)
    }

    fn times(self, rhs: i128) -> (r: i128) {
        self.wrapping_mul(rhs)
    }
}

/// `num_traits::Zero::zero` for `isize`, which that crate defines as the
/// literal `0`.
#[verifier::external_body]
fn zero_isize() -> (r: isize)
    ensures
        r == 0,
{
    <isize as num_traits::Zero>::zero()
}

impl Numeric for isize {
    open spec fn spec_zero() -> isize {
        0
    }

    open spec fn spec_plus(self, rhs: isize) -> isize {
        self.wrapping_add(rhs)
    }

    open spec fn spec_times(self, rhs: isize) -> isize {
        self.wrapping_mul(rhs)
    }

    fn zero() -> (r: isize) {
        zero_isize()
    }

    fn plus(self, rhs: isize) -> (r: isize) {
        self.wrapping_add(rhs)
    }

    fn times(self, rhs: isize) -> (r: isize) {
        self.wrapping_mul(rhs)
    }
}

/// `num_traits::Zero::zero` for `u8`, which that crate defines as the
/// literal `0`.
#[verifier::external_body]
fn zero_u8() -> (r: u8)
    ensures
        r == 0,
{
    <u8 as num_traits::Zero>::zero()
}

impl Numeric for u8 {
    open spec fn spec_zero() -> u8 {
        0
    }

    open spec fn spec_plus(self, rhs: u8) -> u8 {
        self.wrapping_add(rhs)
    }

    open spec fn spec_times(self, rhs: u8) -> u8 {
        self.wrapping_mul(rhs)
    }

    fn zero() -> (r: u8) {
        zero_u8()
    }

    fn plus(self, rhs: u8) -> (r: u8) {
        self.wrapping_add(rhs)
    }

    fn times(self, rhs: u8) -> (r: u8) {
        self.wrapping_mul(rhs)
    }
}

/// `num_traits::Zero::zero` for `u16`, which that crate defines as the
/// literal `0`.
#[verifier::external_body]
fn zero_u16() -> (r: u16)
    ensures
        r == 0,
{
    <u16 as num_traits::Zero>::zero()
}

impl Numeric for u16 {
    open spec fn spec_zero() -> u16 {
        0
    }

    open spec fn spec_plus(self, rhs: u16) -> u16 {
        self.wrapping_add(rhs)
    }

    open spec fn spec_times(self, rhs: u16) -> u16 {
        self.wrapping_mul(rhs)
    }

    fn zero() -> (r: u16) {
        zero_u16()
    }

    fn plus(self, rhs: u16) -> (r: u16) {
        self.wrapping_add(rhs)
    }

    fn times(self, rhs: u16) -> (r: u16) {
        self.wrapping_mul(rhs)
    }
}

/// `num_traits::Zero::zero` for `u32`, which that crate defines as the
/// literal `0`.
#[verifier::external_body]
fn zero_u32() -> (r: u32)
    ensures
        r == 0,
{
    <u32 as num_traits::Zero>::zero()
}

impl Numeric for u32 {
    open spec fn spec_zero() -> u32 {
        0
    }

    open spec fn spec_plus(self, rhs: u32) -> u32 {
        self.wrapping_add(rhs)
    }

    open spec fn spec_times(self, rhs: u32) -> u32 {
        self.wrapping_mul(rhs)
    }

    fn zero() -> (r: u32) {
        zero_u32()
    }

    fn plus(self, rhs: u32) -> (r: u32) {
        self.wrapping_add(rhs)
    }

    fn times(self, rhs: u32) -> (r: u32) {
        self.wrapping_mul(rhs)
    }
}

/// `num_traits::Zero::zero` for `u64`, which that crate defines as the
/// literal `0`.
#[verifier::external_body]
fn zero_u64() -> (r: u64)
    ensures
        r == 0,
{
    <u64 as num_traits::Zero>::zero()
}

impl Numeric for u64 {
    open spec fn spec_zero() -> u64 {
        0
    }

    open spec fn spec_plus(self, rhs: u64) -> u64 {
        self.wrapping_add(rhs)
    }

    open spec fn spec_times(self, rhs: u64) -> u64 {
        self.wrapping_mul(rhs)
    }

    fn zero() -> (r: u64) {
        zero_u64()
    }

    fn plus(self, rhs: u64) -> (r: u64) {
        self.wrapping_add(rhs)
    }

    fn times(self, rhs: u64) -> (r: u64) {
        self.wrapping_mul(rhs)
    }
}

/// `num_traits::Zero::zero` for `u128`, which that crate defines as the
/// literal `0`.
#[verifier::external_body]
fn zero_u128() -> (r: u128)
    ensures
        r == 0,
{
    <u128 as num_traits::Zero>::zero()
}

impl Numeric for u128 {
    open spec fn spec_zero() -> u128 {
        0
    }

    open spec fn spec_plus(self, rhs: u128) -> u128 {
        self.wrapping_add(rhs)
    }

    open spec fn spec_times(self, rhs: u128) -> u128 {
        self.wrapping_mul(rhs)
    }

    fn zero() -> (r: u128) {
        zero_u128()
    }

    fn plus(self, rhs: u128) -> (r: u128) {
        self.wrapping_add(rhs)
    }

    fn times(self, rhs: u128) -> (r: u128) {
        self.wrapping_mul(rhs)
    }
}

/// `num_traits::Zero::zero` for `usize`, which that crate defines as the
/// literal `0`.
#[verifier::external_body]
fn zero_usize() -> (r: usize)
    ensures
        r == 0,
{
    <usize as num_traits::Zero>::zero()
}

impl Numeric for usize {
    open spec fn spec_zero() -> usize {
        0
    }

    open spec fn spec_plus(self, rhs: usize) -> usize {
        self.wrapping_add(rhs)
    }

    open spec fn spec_times(self, rhs: usize) -> usize {
        self.wrapping_mul(rhs)
    }

    fn zero() -> (r: usize) {
        zero_usize()
    }

    fn plus(self, rhs: usize) -> (r: usize) {
        self.wrapping_add(rhs)
    }

    fn times(self, rhs: usize) -> (r: usize) {
        self.wrapping_mul(rhs)
    }
}

} // verus!
