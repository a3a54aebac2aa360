//! Requests sent by a client.

use crate::common::{Identity, ProfilID};
use vstd::prelude::*;

verus! {

pub struct Login {
    pub identity: Identity,
}

/// Voting and adding a nickname are the same operation.
pub struct VoteNickname {
    pub target: ProfilID,
    pub nickname: String,
}

pub struct DeleteNickname {
    pub target: ProfilID,
    pub nickname: String,
}

pub struct AskForPersonProfil {
    pub profil: ProfilID,
}

pub struct UpdateNicknameProtection {
    pub target: ProfilID,
    pub nickname: String,
    pub protection_statut: bool,
}

} // verus!
