//! Answers sent to a client.

use crate::common::{ClassID, ProfilID};
use vstd::prelude::*;

verus! {

/// A class with its members, each as id and display name.
pub struct Class {
    pub name: String,
    pub profiles: Vec<(ProfilID, String)>,
}

pub struct ClassList {
    pub classes: Vec<(ClassID, Class)>,
}

/// One proposition as a given requester sees it.
pub struct NicknameStatut {
    pub proposition: String,
    pub count: usize,
    pub contain_you: bool,
    pub allowed_to_be_delete: bool,
    pub protected: bool,
}

pub ghost struct StatutView {
    pub proposition: Seq<char>,
    pub count: int,
    pub contain_you: bool,
    pub allowed_to_be_delete: bool,
    pub protected: bool,
}

impl View for NicknameStatut {
    type V = StatutView;

    open spec fn view(&self) -> StatutView {
        StatutView {
            proposition: self.proposition@,
            count: self.count as int,
            contain_you: self.contain_you,
            allowed_to_be_delete: self.allowed_to_be_delete,
            protected: self.protected,
        }
    }
}

/// The propositions made for a profile, and what the requester may do.
pub struct Profile {
    pub profil_id: ProfilID,
    pub nicknames: Vec<NicknameStatut>,
    pub allowed_to_vote: bool,
    pub allowed_to_protect: bool,
}

} // verus!
