//! Identifiers and values shared between the registry and its clients.

use vstd::prelude::*;

pub mod packets;

verus! {

/// Handle of a profile, stable for the lifetime of the profile.
#[derive(Copy, Clone, Debug, Default, Hash, PartialEq, Eq, Structural)]
pub struct ProfilID(pub u32);

/// Handle of a class, stable for the lifetime of the class.
#[derive(Copy, Clone, Debug, Default, Hash, PartialEq, Eq, Structural)]
pub struct ClassID(pub u32);

/// Used to log in: a display name and its credential.
#[derive(Debug, Default)]
pub struct Identity {
    pub name: String,
    pub password: String,
}

impl Identity {
    /// A field-by-field copy of the identity.
    pub fn duplicate(&self) -> (r: Identity)
        ensures
            r.name@ == self.name@,
            r.password@ == self.password@,
    {
        Identity { name: self.name.clone(), password: self.password.clone() }
    }
}

} // verus!
