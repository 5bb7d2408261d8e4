//! Service keys.
//!
//! Services are keyed by [`TypeId`], exactly as the container's maps are.
//! Verus sees a `TypeId` as an opaque value; the only operations the
//! library needs are "the key of type `T`" and key comparison.

use std::any::TypeId;
use vstd::prelude::*;

verus! {

#[verifier::external_type_specification]
#[verifier::external_body]
pub struct ExTypeId(std::any::TypeId);

/// Compares two keys.
///
/// Calls `<TypeId as PartialEq>::eq`. `TypeId`'s equality is the derived
/// equality of its internal representation, so two keys compare equal exactly
/// when they are the same value; the contract says so.
#[verifier::external_body]
pub(crate) fn same_key(a: &TypeId, b: &TypeId) -> (r: bool)
    ensures
        r == (*a == *b),
{
    *a == *b
}

/// The key of the type `T`.
///
/// Calls `TypeId::of::<T>()`. Nothing is stated of the result: a key depends
/// on the type only, which no spec function without generics can name.
#[verifier::external_body]
pub(crate) fn key_of<T: ?Sized + 'static>() -> TypeId {
    TypeId::of::<T>()
}

} // verus!
