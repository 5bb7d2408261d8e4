//! Errors of dependency injection operations.

use crate::typeid::key_of;
use std::any::TypeId;
use vstd::prelude::*;
use vstd::string::StringExecFns;

verus! {

/// Errors that can occur during dependency injection operations.
///
/// Each variant names the service it concerns by the name the caller gave
/// for it (normally the Rust type name of the service).
#[derive(Debug)]
pub enum DiError {
    /// The service is not registered in the scope chain.
    ///
    /// The container stores services by [`TypeId`] only, so this error can
    /// name the missing service but not the registered ones.
    NotFound { service: &'static str, type_id: TypeId },
    /// A circular dependency was detected while resolving the service.
    CircularDependency { service: &'static str },
    /// A factory failed to create the service.
    CreationFailed { service: &'static str, reason: String },
    /// The container is locked and cannot be modified.
    Locked,
    /// The service is already registered.
    AlreadyRegistered { service: &'static str },
    /// The parent scope was dropped.
    ParentDropped,
    /// Internal error.
    Internal(String),
}

/// The text of the message of `e`.
pub open spec fn message_of(e: DiError) -> Seq<char> {
    match e {
        DiError::NotFound { service, .. } => "Service not found: "@ + service@
            + " (not registered in this scope chain; was it registered in a different scope, or removed by clear()? Container::debug_registrations() lists what is registered)"@,
        DiError::CircularDependency { service } => "Circular dependency detected while resolving: "@
            + service@,
        DiError::CreationFailed { service, reason } => "Failed to create service "@ + service@
            + ": "@ + reason@,
        DiError::Locked => "Container is locked - cannot register new services"@,
        DiError::AlreadyRegistered { service } => "Service already registered: "@ + service@,
        DiError::ParentDropped => "Parent scope has been dropped"@,
        DiError::Internal(s) => "Internal DI error: "@ + s@,
    }
}

impl DiError {
    /// A `NotFound` error for the service type `T`, named `service`.
    pub fn not_found<T: ?Sized + 'static>(service: &'static str) -> (r: Self)
        ensures
            r matches DiError::NotFound { service: s, .. } && s == service,
    {
        DiError::NotFound { service, type_id: key_of::<T>() }
    }

    /// A `CreationFailed` error for the service type `T`, named `service`.
    pub fn creation_failed<T: ?Sized + 'static>(service: &'static str, reason: String) -> (r: Self)
        ensures
            r == (DiError::CreationFailed { service, reason }),
    {
        DiError::CreationFailed { service, reason }
    }

    /// An `AlreadyRegistered` error for the service type `T`, named `service`.
    pub fn already_registered<T: ?Sized + 'static>(service: &'static str) -> (r: Self)
        ensures
            r == (DiError::AlreadyRegistered { service }),
    {
        DiError::AlreadyRegistered { service }
    }

    /// A `CircularDependency` error for the service type `T`, named `service`.
    pub fn circular<T: ?Sized + 'static>(service: &'static str) -> (r: Self)
        ensures
            r == (DiError::CircularDependency { service }),
    {
        DiError::CircularDependency { service }
    }

    /// The human-readable message of the error.
    pub fn message(&self) -> (r: String)
        ensures
            r@ == message_of(*self),
    {
        match self {
            DiError::NotFound { service, .. } => {
                let mut m = String::from_str("Service not found: ");
                m.append(service);
                m.append(
                    " (not registered in this scope chain; was it registered in a different scope, or removed by clear()? Container::debug_registrations() lists what is registered)",
                );
                m
            },
            DiError::CircularDependency { service } => {
                let mut m = String::from_str("Circular dependency detected while resolving: ");
                m.append(service);
                m
            },
            DiError::CreationFailed { service, reason } => {
                let mut m = String::from_str("Failed to create service ");
                m.append(service);
                m.append(": ");
                m.append(reason.as_str());
                m
            },
            DiError::Locked => String::from_str("Container is locked - cannot register new services"),
            DiError::AlreadyRegistered { service } => {
                let mut m = String::from_str("Service already registered: ");
                m.append(service);
                m
            },
            DiError::ParentDropped => String::from_str("Parent scope has been dropped"),
            DiError::Internal(s) => {
                let mut m = String::from_str("Internal DI error: ");
                m.append(s.as_str());
                m
            },
        }
    }
}

impl Clone for DiError {
    fn clone(&self) -> (r: Self)
        ensures
            r == *self,
    {
        match self {
            DiError::NotFound { service, type_id } => DiError::NotFound {
                service,
                type_id: *type_id,
            },
            DiError::CircularDependency { service } => DiError::CircularDependency { service },
            DiError::CreationFailed { service, reason } => DiError::CreationFailed {
                service,
                reason: reason.clone(),
            },
            DiError::Locked => DiError::Locked,
            DiError::AlreadyRegistered { service } => DiError::AlreadyRegistered { service },
            DiError::ParentDropped => DiError::ParentDropped,
            DiError::Internal(s) => DiError::Internal(s.clone()),
        }
    }
}

} // verus!
