//! The stored form of profiles and classes: keyed by name, so that the
//! files stay readable and comparable across versions.

use crate::common::{ClassID, Identity, ProfilID};
use crate::data_server::permissions::Permissions;
use vstd::prelude::*;

verus! {

pub struct Profil {
    pub identity: Identity,
    pub permissions: Permissions,
}

#[derive(Default)]
pub struct PeopleRepartition {
    pub profiles: Vec<Profil>,
    pub classes: Vec<Class>,
}

/// The correspondence between names and ids, kept so that ids stay stable
/// across reloads.
#[derive(Default)]
pub struct IdMap {
    /// profile id and name
    pub profil_mapping: Vec<(ProfilID, String)>,
    /// class id and name
    pub class_mapping: Vec<(ClassID, String)>,
}

pub struct Class {
    pub name: String,
    pub people: Vec<String>,
}

} // verus!
