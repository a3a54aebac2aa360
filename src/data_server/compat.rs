//! The older per-class storage, keyed by names, kept for one-shot imports.

use vstd::prelude::*;

verus! {

pub struct Nickname {
    pub nickname: String,
    pub votes: Vec<String>,
}

/// A "class" of people with their nicknames: for each name, the password
/// and the nicknames proposed for that person, in order of names.
pub struct Group {
    pub profiles: Vec<(String, (String, Vec<Nickname>))>,
}

} // verus!
