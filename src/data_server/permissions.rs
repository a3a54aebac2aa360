//! Relationship policies and the four settings of a profile.

use vstd::prelude::*;

verus! {

/// Which relationship between an actor and a target allows an action.
#[derive(Copy, Clone, Debug, PartialEq, Eq, Structural)]
pub enum InteractionPermission {
    Forbidden,
    YourSelf,
    SameClass,
    AnyBody,
}

impl InteractionPermission {
    pub fn forbidden() -> (r: Self)
        ensures
            r == InteractionPermission::Forbidden,
    {
        InteractionPermission::Forbidden
    }

    pub fn is_forbidden(&self) -> (r: bool)
        ensures
            r == (*self == InteractionPermission::Forbidden),
    {
        *self == InteractionPermission::Forbidden
    }

    pub fn yourself() -> (r: Self)
        ensures
            r == InteractionPermission::YourSelf,
    {
        InteractionPermission::YourSelf
    }

    pub fn is_yourself(&self) -> (r: bool)
        ensures
            r == (*self == InteractionPermission::YourSelf),
    {
        *self == InteractionPermission::YourSelf
    }

    pub fn same_class() -> (r: Self)
        ensures
            r == InteractionPermission::SameClass,
    {
        InteractionPermission::SameClass
    }

    pub fn is_same_class(&self) -> (r: bool)
        ensures
            r == (*self == InteractionPermission::SameClass),
    {
        *self == InteractionPermission::SameClass
    }
}

/// The policy of a profile: what it may do, to whom.
#[derive(Copy, Clone, Debug, PartialEq, Eq, Structural)]
pub struct Permissions {
    /// whether a user is allowed to vote for, or add, a nickname of someone
    pub vote: InteractionPermission,
    /// whether a user is allowed to delete a nickname of someone
    pub delete: InteractionPermission,
    /// whether a user is allowed to protect a nickname of someone; only those
    /// with this right can delete protected nicknames
    pub protect_nickname: InteractionPermission,
    /// whether a user may run administrative commands
    pub allowed_to_use_cmd: bool,
}

/// The policy that a new profile gets.
pub open spec fn default_permissions() -> Permissions {
    Permissions {
        vote: InteractionPermission::SameClass,
        delete: InteractionPermission::YourSelf,
        protect_nickname: InteractionPermission::Forbidden,
        allowed_to_use_cmd: false,
    }
}

/// Negation, used to leave a `false` flag out of a stored document.
pub fn not(b: &bool) -> (r: bool)
    ensures
        r == !*b,
{
    !*b
}

impl Default for Permissions {
    fn default() -> (r: Self)
        ensures
            r == default_permissions(),
    {
        Permissions {
            vote: InteractionPermission::SameClass,
            delete: InteractionPermission::YourSelf,
            protect_nickname: InteractionPermission::Forbidden,
            allowed_to_use_cmd: false,
        }
    }
}

impl Permissions {
    pub fn is_default(&self) -> (r: bool)
        ensures
            r == (*self == default_permissions()),
    {
        let d = Permissions::default();
        self.vote == d.vote && self.delete == d.delete && self.protect_nickname
            == d.protect_nickname && self.allowed_to_use_cmd == d.allowed_to_use_cmd
    }
}

} // verus!
