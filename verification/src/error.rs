//! What the registry answers when it cannot do what was asked.

use vstd::prelude::*;

verus! {

/// Why a registration was turned away. The caller mends the record and tries again.
#[derive(Clone, Copy, Debug, PartialEq, Eq)]
pub enum RegistrationError {
    /// The record offers no capacity at all.
    InvalidCapacity,
    /// The record names another function than the one it was registered for.
    IdentityMismatch,
}

/// Why no worker was selected.
#[derive(Clone, Copy, Debug, PartialEq, Eq)]
pub enum SelectionError {
    /// No worker is registered for the function.
    UnknownFunction,
    /// Workers are registered for the function, and none has capacity to spare.
    NoEligibleWorker,
}

/// Why a load was not adjusted.
#[derive(Clone, Copy, Debug, PartialEq, Eq)]
pub enum LoadError {
    /// The worker is not registered for the function.
    NotFound,
    /// The worker already runs as many invocations as it may.
    AtCapacity,
    /// The worker runs no invocation that could have completed.
    Underflow,
}

} // verus!
