//! Cache keys: types with a decidable equality on their mathematical values.

use vstd::prelude::*;

verus! {

/// A type usable as a cache key.
///
/// A key is abstracted by its view `Self::V`; two keys stand for the same
/// cache slot exactly when their views are equal, and `key_eq` decides
/// that equality at run time.
pub trait Key: View + Sized {
    /// Decides whether `self` and `other` stand for the same key value.
    fn key_eq(&self, other: &Self) -> (b: bool)
        ensures
            b == (self@ == other@),
    ;
}

/// Relies on `<str as PartialEq>::eq`: string slices compare equal
/// exactly when they hold the same sequence of characters.
#[verifier::external_body]
fn str_eq(a: &str, b: &str) -> (r: bool)
    ensures
        r == (a@ == b@),
{
    a == b
}

impl<'a> Key for &'a str {
    fn key_eq(&self, other: &Self) -> (b: bool) {
        str_eq(self, other)
    }
}

impl Key for i32 {
    fn key_eq(&self, other: &Self) -> (b: bool) {
        *self == *other
    }
}

impl Key for i64 {
    fn key_eq(&self, other: &Self) -> (b: bool) {
        *self == *other
    }
}

impl Key for u32 {
    fn key_eq(&self, other: &Self) -> (b: bool) {
        *self == *other
    }
}

impl Key for u64 {
    fn key_eq(&self, other: &Self) -> (b: bool) {
        *self == *other
    }
}

impl Key for usize {
    fn key_eq(&self, other: &Self) -> (b: bool) {
        *self == *other
    }
}

} // verus!
