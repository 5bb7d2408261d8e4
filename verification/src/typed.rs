//! Type-level registries.
//!
//! A typed builder records every registered service type in its type, as a
//! chain `Reg<T1, Reg<T2, ... ()>>`. The traits here let code require, at
//! compile time, that a type occurs in such a chain.

use std::marker::PhantomData;
use vstd::prelude::*;

verus! {

/// A type that can be registered as a service: shareable between threads and
/// free of borrowed data.
pub trait Injectable: Send + Sync + 'static {}

impl<T: Send + Sync + 'static> Injectable for T {}

/// A registry chain: `T` registered, followed by the registry `Rest`.
pub struct Reg<T, Rest>(PhantomData<(T, Rest)>);

impl<T, Rest> Reg<T, Rest> {
    /// The (zero-sized) marker value.
    pub fn new() -> Self {
        Reg(PhantomData)
    }
}

/// The registry has `T` at its head.
pub trait HasType<T: Injectable> {}

impl<T: Injectable, Rest> HasType<T> for Reg<T, Rest> {}

/// A service that declares its dependencies as a registry chain.
///
/// Nothing consumes `Dependencies` at run time; the chain can be compared
/// with a builder's registry type at compile time.
pub trait Require {
    /// Registry chain of required dependencies: `Reg<T1, Reg<T2, ... ()>>`.
    type Dependencies;
}

/// A service that lists the names of its dependencies (for documentation
/// and debugging).
pub trait DeclaresDeps: Injectable {
    /// The dependency names; none unless the service says otherwise.
    fn dependency_names() -> (r: &'static [&'static str])
        default_ensures
            r@.len() == 0,
    {
        &[]
    }
}

/// Accepted for any registry (kept for compatibility).
pub trait VerifyDeps<D> {}

impl<R, D> VerifyDeps<D> for R {}

/// Alias of [`HasType`].
pub trait Has<T: Injectable>: HasType<T> {}

impl<T: Injectable, R: HasType<T>> Has<T> for R {}

/// Alias of [`HasType`].
pub trait HasService<T: Injectable>: HasType<T> {}

impl<T: Injectable, R: HasType<T>> HasService<T> for R {}

/// Accepted for any registry (kept for compatibility).
pub trait DepsPresent<D> {}

impl<R, D> DepsPresent<D> for R {}

} // verus!
