//! A dependency injection container with hierarchical scopes.
//!
//! Services are registered in scopes of a [`container::Container`] and
//! resolved from the nearest scope towards the root. Registrations are
//! singletons (one shared instance), lazy singletons (created on first
//! resolution, then shared) or transients (a new instance per resolution).

pub mod cache;
pub mod container;
pub mod derive;
pub mod error;
pub mod ffi;
pub mod frozen;
pub mod logging;
pub mod pool;
pub mod storage;
pub mod typed;
pub mod typeid;
