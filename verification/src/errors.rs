use vstd::prelude::*;

verus! {

/// The two failure kinds of the registry. Every precondition violation
/// surfaces as one of these and leaves the state unchanged.
#[derive(Clone, Copy, Debug, PartialEq, Eq, Structural)]
pub enum RegistryError {
    /// Initialization was attempted when a registry already exists.
    AlreadyInitialized,
    /// An owner-gated operation was called by a principal other than the
    /// current owner.
    NotOwner,
    /// A role-gated operation was called by a principal that does not hold
    /// the required role.
    Unauthorized,
}

impl RegistryError {
    /// The stable text that integrations branch on: role failures surface
    /// the fixed code "401", the other kinds a distinct message each.
    pub fn code(&self) -> (r: &'static str)
        ensures
            *self == RegistryError::AlreadyInitialized ==> r@ == "The contract is already initialized"@,
            *self == RegistryError::NotOwner ==> r@ == "Owner must be the caller"@,
            *self == RegistryError::Unauthorized ==> r@ == "401"@,
    {
        match self {
            RegistryError::AlreadyInitialized => "The contract is already initialized",
            RegistryError::NotOwner => "Owner must be the caller",
            RegistryError::Unauthorized => "401",
        }
    }
}

} // verus!
