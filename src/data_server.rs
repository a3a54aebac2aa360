//! The registry: profiles, classes and the nickname ledger.

use crate::common::{ClassID, Identity, ProfilID};
use crate::data_server::keyed::{
    has_key, index_of, keys_unique, lemma_index_of, lemma_map_vals, lemma_map_vals_ops,
    lemma_remove_key, lemma_upsert, map_vals, remove_key, upsert, value_of,
};
use crate::data_server::mutation_tracker::MutationTracker;
use crate::common::packets::s2c::{self, NicknameStatut, StatutView};
use crate::data_server::order::{is_permutation, is_ranked, key_view, rank_order, ranks_before};
use crate::data_server::text::{text_lt, trim_text, trimmed};
use crate::data_server::permissions::{default_permissions, InteractionPermission, Permissions};
use vstd::prelude::*;

pub mod compat;
pub mod keyed;
pub mod laws;
pub mod loading;
pub mod mutation_tracker;
pub mod order;
pub mod permissions;
pub mod round_trip;
pub mod serialization;
pub mod text;

verus! {

/// A profile as the registry stores it.
pub struct Profil {
    pub identity: Identity,
    pub permissions: Permissions,
}

/// The failures of administrative operations.
#[derive(Copy, Clone, Debug, PartialEq, Eq, Structural)]
pub enum ServerError {
    PersonDoesntExist,
    ClassDoesntExist,
    PersonAlreadyExist,
    ClassAlreadyExist,
}

/// The text that describes each failure.
pub open spec fn error_message(e: ServerError) -> Seq<char> {
    match e {
        ServerError::PersonDoesntExist => "This person does not exist"@,
        ServerError::ClassDoesntExist => "This class does not exist"@,
        ServerError::PersonAlreadyExist => "This person already exists"@,
        ServerError::ClassAlreadyExist => "This class already exists"@,
    }
}

impl ServerError {
    /// The text that describes the failure.
    pub fn message(&self) -> (r: String)
        ensures
            r@ == error_message(*self),
    {
        match self {
            ServerError::PersonDoesntExist => String::from_str("This person does not exist"),
            ServerError::ClassDoesntExist => String::from_str("This class does not exist"),
            ServerError::PersonAlreadyExist => String::from_str("This person already exists"),
            ServerError::ClassAlreadyExist => String::from_str("This class already exists"),
        }
    }
}

/// A named group of profiles; `profiles` holds no id twice.
pub struct Class {
    pub name: String,
    pub profiles: Vec<ProfilID>,
}

/// A single nickname proposition.
pub struct NickNameProposition {
    pub author: ProfilID,
    pub proposition: String,
    pub votes: Vec<ProfilID>,
    pub protected: bool,
}

/// What a profile is, as plain values.
pub ghost struct ProfilView {
    pub name: Seq<char>,
    pub password: Seq<char>,
    pub permissions: Permissions,
}

pub ghost struct ClassView {
    pub name: Seq<char>,
    pub members: Seq<ProfilID>,
}

pub ghost struct PropositionView {
    pub author: ProfilID,
    pub text: Seq<char>,
    pub votes: Seq<ProfilID>,
    pub protected: bool,
}

impl View for Profil {
    type V = ProfilView;

    open spec fn view(&self) -> ProfilView {
        ProfilView {
            name: self.identity.name@,
            password: self.identity.password@,
            permissions: self.permissions,
        }
    }
}

impl View for Class {
    type V = ClassView;

    open spec fn view(&self) -> ClassView {
        ClassView { name: self.name@, members: self.profiles@ }
    }
}

impl View for NickNameProposition {
    type V = PropositionView;

    open spec fn view(&self) -> PropositionView {
        PropositionView {
            author: self.author,
            text: self.proposition@,
            votes: self.votes@,
            protected: self.protected,
        }
    }
}

pub open spec fn profil_view(p: Profil) -> ProfilView {
    p@
}

pub open spec fn class_view(c: Class) -> ClassView {
    c@
}

pub open spec fn proposition_view(p: NickNameProposition) -> PropositionView {
    p@
}

pub open spec fn propositions_view(v: Vec<NickNameProposition>) -> Seq<PropositionView> {
    v@.map_values(|p: NickNameProposition| p@)
}

/// The whole registry as plain values. Each sequence of pairs is used as a
/// map from its first components.
pub ghost struct ServerView {
    pub profiles: Seq<(ProfilID, ProfilView)>,
    pub profile_ceiling: u32,
    pub names: Seq<(Seq<char>, ProfilID)>,
    pub classes: Seq<(ClassID, ClassView)>,
    pub class_ceiling: u32,
    pub ledger: Seq<(ProfilID, Seq<PropositionView>)>,
}

/// Whether a relationship policy lets `actor` act on `target`.
pub open spec fn allowed_by(
    s: ServerView,
    policy: InteractionPermission,
    actor: ProfilID,
    target: ProfilID,
) -> bool {
    match policy {
        InteractionPermission::Forbidden => false,
        InteractionPermission::YourSelf => actor == target,
        InteractionPermission::SameClass => s.same_class(actor, target),
        InteractionPermission::AnyBody => true,
    }
}

impl ServerView {
    /// The store's invariant: unique keys, ids below their ceilings, class
    /// memberships without repetition, and a name index that only points at
    /// profiles carrying that name.
    pub open spec fn wf(self) -> bool {
        &&& keys_unique(self.profiles)
        &&& forall|i: int| 0 <= i < self.profiles.len() ==> #[trigger] self.profiles[i].0.0 <= self.profile_ceiling
        &&& keys_unique(self.names)
        &&& forall|i: int| 0 <= i < self.names.len() ==> {
            &&& has_key(self.profiles, #[trigger] self.names[i].1)
            &&& value_of(self.profiles, self.names[i].1).name == self.names[i].0
        }
        &&& keys_unique(self.classes)
        &&& forall|i: int| 0 <= i < self.classes.len() ==> #[trigger] self.classes[i].0.0 <= self.class_ceiling
        &&& forall|i: int| 0 <= i < self.classes.len() ==> (#[trigger] self.classes[i]).1.members.no_duplicates()
        &&& keys_unique(self.ledger)
    }

    pub open spec fn has_profile(self, id: ProfilID) -> bool {
        has_key(self.profiles, id)
    }

    pub open spec fn profile(self, id: ProfilID) -> ProfilView {
        value_of(self.profiles, id)
    }

    /// Both ids are profiles and some class holds both; an id without a
    /// profile never shares a class, even when a class still lists it.
    pub open spec fn same_class(self, a: ProfilID, b: ProfilID) -> bool {
        &&& self.has_profile(a)
        &&& self.has_profile(b)
        &&& exists|c: int|
            0 <= c < self.classes.len() && (#[trigger] self.classes[c]).1.members.contains(a)
                && self.classes[c].1.members.contains(b)
    }

    pub open spec fn permission_of(self, id: ProfilID) -> Option<Permissions> {
        if self.has_profile(id) {
            Some(self.profile(id).permissions)
        } else {
            None
        }
    }

    /// The id that the name index gives for `name`.
    pub open spec fn id_of_name(self, name: Seq<char>) -> Option<ProfilID> {
        if has_key(self.names, name) {
            Some(value_of(self.names, name))
        } else {
            None
        }
    }

    /// The registry with the profile under `id` replaced by `p`.
    pub open spec fn with_profile(self, id: ProfilID, p: ProfilView) -> ServerView {
        ServerView { profiles: self.profiles.update(index_of(self.profiles, id), (id, p)), ..self }
    }

    /// The registry after a new profile took the next id.
    pub open spec fn after_add_profile(self, name: Seq<char>, password: Seq<char>) -> ServerView {
        let id = ProfilID((self.profile_ceiling + 1) as u32);
        ServerView {
            profiles: self.profiles.push(
                (id, ProfilView { name, password, permissions: default_permissions() }),
            ),
            profile_ceiling: (self.profile_ceiling + 1) as u32,
            names: self.names.push((name, id)),
            ..self
        }
    }

    /// The name index, stated key by key: each indexed name leads to a
    /// profile carrying that name.
    pub open spec fn names_point_to_profiles(self) -> bool {
        forall|k: Seq<char>|
            #[trigger] has_key(self.names, k) ==> has_key(self.profiles, value_of(self.names, k))
                && value_of(self.profiles, value_of(self.names, k)).name == k
    }

    pub proof fn lemma_names_by_key(self)
        requires
            keys_unique(self.names),
        ensures
            self.names_point_to_profiles() <==> forall|i: int| 0 <= i < self.names.len() ==> {
                &&& has_key(self.profiles, #[trigger] self.names[i].1)
                &&& value_of(self.profiles, self.names[i].1).name == self.names[i].0
            },
    {
        if self.names_point_to_profiles() {
            assert forall|i: int| 0 <= i < self.names.len() implies {
                &&& has_key(self.profiles, #[trigger] self.names[i].1)
                &&& value_of(self.profiles, self.names[i].1).name == self.names[i].0
            } by {
                lemma_index_of(self.names, i);
            }
        }
        if forall|i: int| 0 <= i < self.names.len() ==> {
            &&& has_key(self.profiles, #[trigger] self.names[i].1)
            &&& value_of(self.profiles, self.names[i].1).name == self.names[i].0
        } {
            assert forall|k: Seq<char>| #[trigger] has_key(self.names, k) implies has_key(
                self.profiles,
                value_of(self.names, k),
            ) && value_of(self.profiles, value_of(self.names, k)).name == k by {
                let i = index_of(self.names, k);
                lemma_index_of(self.names, i);
            }
        }
    }

    pub proof fn lemma_with_profile(self, id: ProfilID, p: ProfilView)
        requires
            self.wf(),
            self.has_profile(id),
            p.name == self.profile(id).name,
        ensures
            self.with_profile(id, p).wf(),
            self.with_profile(id, p).profile(id) == p,
            forall|k: ProfilID| self.with_profile(id, p).has_profile(k) == self.has_profile(k),
            forall|k: ProfilID| k != id && self.has_profile(k) ==> self.with_profile(id, p).profile(k) == self.profile(k),
    {
        lemma_upsert(self.profiles, id, p);
        let t = self.with_profile(id, p);
        assert(t.profiles == upsert(self.profiles, id, p));
        assert forall|i: int| 0 <= i < t.profiles.len() implies #[trigger] t.profiles[i].0.0 <= t.profile_ceiling by {
            assert(t.profiles[i].0 == self.profiles[i].0);
        }
    }

    /// The registry after a profile was removed: its name, its profile, its
    /// propositions and every vote it cast go; the id ceiling steps back when
    /// the removed id was the last one handed out.
    pub open spec fn after_delete_profile(self, name: Seq<char>, id: ProfilID) -> ServerView {
        ServerView {
            names: remove_key(self.names, name),
            profiles: remove_key(self.profiles, id),
            profile_ceiling: if id.0 == self.profile_ceiling && self.profile_ceiling > 0 {
                (self.profile_ceiling - 1) as u32
            } else {
                self.profile_ceiling
            },
            ledger: strip_voter(remove_key(self.ledger, id), id),
            ..self
        }
    }

    /// The registry after `name`, which the index maps to `id`, was renamed.
    pub open spec fn after_change_name(self, old_name: Seq<char>, new_name: Seq<char>, id: ProfilID) -> ServerView {
        ServerView {
            names: upsert(remove_key(self.names, old_name), new_name, id),
            profiles: self.profiles.update(
                index_of(self.profiles, id),
                (id, ProfilView { name: new_name, ..self.profile(id) }),
            ),
            ..self
        }
    }

    /// `c` is the first class carrying `name`.
    pub open spec fn is_first_named(self, c: int, name: Seq<char>) -> bool {
        &&& 0 <= c < self.classes.len()
        &&& self.classes[c].1.name == name
        &&& forall|d: int| 0 <= d < c ==> (#[trigger] self.classes[d]).1.name != name
    }

    pub open spec fn has_class_named(self, name: Seq<char>) -> bool {
        exists|c: int| 0 <= c < self.classes.len() && (#[trigger] self.classes[c]).1.name == name
    }

    /// The position of the first class carrying `name` (meaningful when there is one).
    pub open spec fn class_named(self, name: Seq<char>) -> int {
        choose|c: int| self.is_first_named(c, name)
    }

    pub proof fn lemma_class_named(self, c: int, name: Seq<char>)
        requires
            self.is_first_named(c, name),
        ensures
            self.class_named(name) == c,
            self.has_class_named(name),
    {
        let d = self.class_named(name);
        assert(self.is_first_named(d, name));
        if d < c {
            assert(self.classes[d].1.name != name);
        }
        if c < d {
            assert(self.classes[c].1.name != name);
        }
    }

    /// The registry after a class was created under the next class id.
    pub open spec fn after_add_class(self, name: Seq<char>) -> ServerView {
        let id = ClassID((self.class_ceiling + 1) as u32);
        ServerView {
            classes: self.classes.push((id, ClassView { name, members: Seq::empty() })),
            class_ceiling: (self.class_ceiling + 1) as u32,
            ..self
        }
    }

    /// The registry after the class at position `c` was removed; the class id
    /// ceiling steps back when its id was the last one handed out.
    pub open spec fn after_delete_class(self, c: int) -> ServerView {
        ServerView {
            classes: self.classes.remove(c),
            class_ceiling: if self.classes[c].0.0 == self.class_ceiling && self.class_ceiling > 0 {
                (self.class_ceiling - 1) as u32
            } else {
                self.class_ceiling
            },
            ..self
        }
    }

    /// The registry with the members of the class at position `c` replaced.
    pub open spec fn with_members(self, c: int, members: Seq<ProfilID>) -> ServerView {
        ServerView {
            classes: self.classes.update(
                c,
                (self.classes[c].0, ClassView { members, ..self.classes[c].1 }),
            ),
            ..self
        }
    }

    /// Whether some class holds `id`.
    pub open spec fn in_some_class(self, id: ProfilID) -> bool {
        exists|c: int| 0 <= c < self.classes.len() && (#[trigger] self.classes[c]).1.members.contains(id)
    }

    /// The profiles that no class holds, in storage order.
    pub open spec fn lonely(self) -> Seq<(ProfilID, ProfilView)> {
        self.profiles.filter(|e: (ProfilID, ProfilView)| !self.in_some_class(e.0))
    }

    /// What `requester` may do towards `target`: vote, delete, protect.
    /// An unknown requester may do nothing.
    pub open spec fn permission_flags(self, requester: ProfilID, target: ProfilID) -> (bool, bool, bool) {
        match self.permission_of(requester) {
            None => (false, false, false),
            Some(p) => (
                allowed_by(self, p.vote, requester, target),
                allowed_by(self, p.delete, requester, target),
                allowed_by(self, p.protect_nickname, requester, target),
            ),
        }
    }

    /// The ledger with the propositions of `target` replaced.
    pub open spec fn with_propositions(self, target: ProfilID, props: Seq<PropositionView>) -> ServerView {
        ServerView { ledger: upsert(self.ledger, target, props), ..self }
    }

    /// The registry after `voter` voted for `text` (already trimmed) on
    /// `target`. Nothing changes when the voter is unknown or may not vote
    /// for the target, when the text is empty, or when the target has no
    /// propositions and no profile.
    pub open spec fn after_vote(self, voter: ProfilID, target: ProfilID, text: Seq<char>) -> ServerView {
        if !self.permission_flags(voter, target).0 || text.len() == 0 {
            self
        } else if has_key(self.ledger, target) || self.has_profile(target) {
            self.with_propositions(target, vote_props(self.propositions(target), voter, text))
        } else {
            self
        }
    }

    /// The registry after `deleter` asked to delete the proposition `text`
    /// of `target`.
    pub open spec fn after_delete(self, deleter: ProfilID, target: ProfilID, text: Seq<char>) -> ServerView {
        let props = self.propositions(target);
        let j = text_position(props, text);
        if self.permission_of(deleter) is Some && has_text(props, text) && deletable(
            self.permission_flags(deleter, target),
            deleter,
            props[j],
        ) {
            self.with_propositions(target, swap_remove(props, j))
        } else {
            self
        }
    }

    /// The registry after `admin` asked to set the protection of the
    /// proposition `text` of `target` to `state`.
    pub open spec fn after_protect(self, admin: ProfilID, target: ProfilID, text: Seq<char>, state: bool) -> ServerView {
        let props = self.propositions(target);
        let j = text_position(props, text);
        if self.permission_flags(admin, target).2 && has_text(props, text) {
            self.with_propositions(target, props.update(j, PropositionView { protected: state, ..props[j] }))
        } else {
            self
        }
    }

    pub proof fn lemma_with_propositions(self, target: ProfilID, props: Seq<PropositionView>)
        requires
            self.wf(),
        ensures
            self.with_propositions(target, props).wf(),
            self.with_propositions(target, props).propositions(target) == props,
            forall|t: ProfilID| t != target ==> self.with_propositions(target, props).propositions(t) == self.propositions(t),
    {
        lemma_upsert(self.ledger, target, props);
    }

    /// What `requester`, if any, may do towards `target`.
    pub open spec fn requester_flags(self, requester: Option<ProfilID>, target: ProfilID) -> (bool, bool, bool) {
        match requester {
            Some(r) => self.permission_flags(r, target),
            None => (false, false, false),
        }
    }

    /// The predicate "is the id of a profile".
    pub open spec fn is_profile(self) -> spec_fn(ProfilID) -> bool {
        |id: ProfilID| self.has_profile(id)
    }

    /// The members that have a profile, each with its name, in order.
    pub open spec fn present_members(self, members: Seq<ProfilID>) -> Seq<(ProfilID, Seq<char>)> {
        members.filter(self.is_profile()).map_values(|id: ProfilID| (id, self.profile(id).name))
    }

    /// The propositions made for `target`, empty when there are none.
    pub open spec fn propositions(self, target: ProfilID) -> Seq<PropositionView> {
        if has_key(self.ledger, target) {
            value_of(self.ledger, target)
        } else {
            Seq::empty()
        }
    }
}

/// The proposition without any vote of `voter`.
pub open spec fn strip_votes(p: PropositionView, voter: ProfilID) -> PropositionView {
    PropositionView { votes: p.votes.filter(other_than(voter)), ..p }
}

/// The predicate "is not `voter`".
pub open spec fn other_than(voter: ProfilID) -> spec_fn(ProfilID) -> bool {
    |x: ProfilID| x != voter
}

/// The propositions without any vote of `voter`.
pub open spec fn strip_all(props: Seq<PropositionView>, voter: ProfilID) -> Seq<PropositionView> {
    props.map_values(|p: PropositionView| strip_votes(p, voter))
}

/// The ledger without any vote of `voter`.
pub open spec fn strip_voter(
    ledger: Seq<(ProfilID, Seq<PropositionView>)>,
    voter: ProfilID,
) -> Seq<(ProfilID, Seq<PropositionView>)> {
    map_vals(ledger, |props: Seq<PropositionView>| strip_all(props, voter))
}

/// The proposition after `voter` cast a vote: any earlier vote of `voter`
/// is withdrawn from it, and the new vote goes to it when it is `chosen`.
pub open spec fn vote_on(p: PropositionView, voter: ProfilID, chosen: bool) -> PropositionView {
    let kept = p.votes.filter(other_than(voter));
    PropositionView { votes: if chosen { kept.push(voter) } else { kept }, ..p }
}

/// A fresh proposition: `voter` authored it and is its only voter.
pub open spec fn new_proposition(voter: ProfilID, text: Seq<char>) -> PropositionView {
    PropositionView { author: voter, text, votes: seq![voter], protected: false }
}

pub open spec fn has_text(props: Seq<PropositionView>, text: Seq<char>) -> bool {
    exists|j: int| 0 <= j < props.len() && (#[trigger] props[j]).text == text
}

/// `j` is the first proposition carrying `text`.
pub open spec fn is_first_text(props: Seq<PropositionView>, text: Seq<char>, j: int) -> bool {
    &&& 0 <= j < props.len()
    &&& props[j].text == text
    &&& forall|k: int| 0 <= k < j ==> (#[trigger] props[k]).text != text
}

/// The position of the first proposition carrying `text` (meaningful when there is one).
pub open spec fn text_position(props: Seq<PropositionView>, text: Seq<char>) -> int {
    choose|j: int| is_first_text(props, text, j)
}

pub proof fn lemma_text_position(props: Seq<PropositionView>, text: Seq<char>, j: int)
    requires
        is_first_text(props, text, j),
    ensures
        text_position(props, text) == j,
        has_text(props, text),
{
    let d = text_position(props, text);
    assert(is_first_text(props, text, d));
    if d < j {
        assert(props[d].text != text);
    }
    if j < d {
        assert(props[j].text != text);
    }
}

/// The propositions after `voter` voted for `text`: the vote goes to the
/// first proposition carrying the text, which becomes a new proposition
/// when none carries it yet.
pub open spec fn vote_props(props: Seq<PropositionView>, voter: ProfilID, text: Seq<char>) -> Seq<PropositionView> {
    let voted = props.map(|j: int, p: PropositionView| vote_on(p, voter, is_first_text(props, text, j)));
    if has_text(props, text) {
        voted
    } else {
        voted.push(new_proposition(voter, text))
    }
}

/// Whether `requester`, holding the three permission flags (vote, delete,
/// protect) towards the proposition's target, may delete the proposition:
/// the right to delete, or authorship, and, when it is protected, the right
/// to protect.
pub open spec fn deletable(flags: (bool, bool, bool), requester: ProfilID, p: PropositionView) -> bool {
    (flags.1 || p.author == requester) && (!p.protected || flags.2)
}

/// The propositions after the one at `j` was swap-removed.
pub open spec fn swap_remove(props: Seq<PropositionView>, j: int) -> Seq<PropositionView> {
    props.update(j, props.last()).drop_last()
}

/// What a requester holding `flags` towards the target sees of a proposition.
pub open spec fn statut_of(requester: Option<ProfilID>, flags: (bool, bool, bool), p: PropositionView) -> StatutView {
    StatutView {
        proposition: p.text,
        count: p.votes.len() as int,
        contain_you: match requester {
            Some(r) => p.votes.contains(r),
            None => false,
        },
        allowed_to_be_delete: (flags.1 || requester == Some(p.author)) && (!p.protected || flags.2),
        protected: p.protected,
    }
}

/// The sort key of a proposition: its vote count and its text.
pub open spec fn rank_key(p: PropositionView) -> (int, Seq<char>) {
    (p.votes.len() as int, p.text)
}

/// The sort key of a displayed proposition.
pub open spec fn statut_key(s: StatutView) -> (int, Seq<char>) {
    (s.count, s.proposition)
}

pub open spec fn pair_view(e: (ProfilID, String)) -> (ProfilID, Seq<char>) {
    (e.0, e.1@)
}

impl View for serialization::Profil {
    type V = ProfilView;

    open spec fn view(&self) -> ProfilView {
        ProfilView {
            name: self.identity.name@,
            password: self.identity.password@,
            permissions: self.permissions,
        }
    }
}

pub open spec fn class_pair_view(e: (ClassID, String)) -> (ClassID, Seq<char>) {
    (e.0, e.1@)
}

pub open spec fn strings_view(v: Vec<String>) -> Seq<Seq<char>> {
    v@.map_values(|s: String| s@)
}

/// The names in `v` never go down, in the order of `text_lt`.
pub open spec fn names_ascending(v: Seq<Seq<char>>) -> bool {
    forall|k: int, l: int| 0 <= k < l < v.len() ==> !text_lt(v[l], v[k])
}

impl ServerView {
    /// `m` lists each profile as (id, name) and each class as (id, name), in
    /// storage order.
    pub open spec fn is_id_map_of(self, m: serialization::IdMap) -> bool {
        &&& m.profil_mapping@.map_values(|e: (ProfilID, String)| pair_view(e)) == self.profiles.map_values(
            |e: (ProfilID, ProfilView)| (e.0, e.1.name),
        )
        &&& m.class_mapping@.map_values(|e: (ClassID, String)| class_pair_view(e)) == self.classes.map_values(
            |e: (ClassID, ClassView)| (e.0, e.1.name),
        )
    }

    /// `r` lists every profile and every class once, each sorted by name;
    /// a class lists the names of its members that have a profile.
    pub open spec fn is_repartition_of(self, r: serialization::PeopleRepartition) -> bool {
        &&& exists|order: Seq<usize>| {
            &&& is_permutation(order, self.profiles.len() as int)
            &&& r.profiles@.len() == self.profiles.len()
            &&& forall|k: int| 0 <= k < self.profiles.len() ==> #[trigger] r.profiles@[k]@ == self.profiles[order[k] as int].1
        }
        &&& names_ascending(r.profiles@.map_values(|p: serialization::Profil| p.identity.name@))
        &&& exists|order: Seq<usize>| {
            &&& is_permutation(order, self.classes.len() as int)
            &&& r.classes@.len() == self.classes.len()
            &&& forall|k: int| 0 <= k < self.classes.len() ==> {
                &&& (#[trigger] r.classes@[k]).name@ == self.classes[order[k] as int].1.name
                &&& strings_view(r.classes@[k].people) == self.present_members(self.classes[order[k] as int].1.members).map_values(
                    |e: (ProfilID, Seq<char>)| e.1,
                )
            }
        }
        &&& names_ascending(r.classes@.map_values(|c: serialization::Class| c.name@))
    }
}

fn copy_ids(v: &Vec<ProfilID>) -> (r: Vec<ProfilID>)
    ensures
        r@ == v@,
{
    let mut r: Vec<ProfilID> = Vec::new();
    let mut i: usize = 0;
    while i < v.len()
        invariant
            i <= v@.len(),
            r@ == v@.subrange(0, i as int),
        decreases v.len() - i,
    {
        r.push(v[i]);
        i = i + 1;
    }
    assert(r@ =~= v@);
    r
}

fn copy_propositions(v: &Vec<NickNameProposition>) -> (r: Vec<NickNameProposition>)
    ensures
        propositions_view(r) == propositions_view(*v),
{
    let mut r: Vec<NickNameProposition> = Vec::new();
    let mut i: usize = 0;
    while i < v.len()
        invariant
            i <= v@.len(),
            r@.len() == i,
            forall|k: int| 0 <= k < i ==> #[trigger] r@[k]@ == v@[k]@,
        decreases v.len() - i,
    {
        let p = &v[i];
        r.push(
            NickNameProposition {
                author: p.author,
                proposition: p.proposition.clone(),
                votes: copy_ids(&p.votes),
                protected: p.protected,
            },
        );
        i = i + 1;
    }
    assert(propositions_view(r) =~= propositions_view(*v));
    r
}

/// An old nickname: its text and the names of its voters.
pub open spec fn old_nickname_view(n: compat::Nickname) -> (Seq<char>, Seq<Seq<char>>) {
    (n.nickname@, strings_view(n.votes))
}

pub open spec fn old_nicknames_view(v: Vec<compat::Nickname>) -> Seq<(Seq<char>, Seq<Seq<char>>)> {
    v@.map_values(|n: compat::Nickname| old_nickname_view(n))
}

/// An old group: for each name, the old nicknames proposed for that person.
pub open spec fn group_view(g: compat::Group) -> Seq<(Seq<char>, Seq<(Seq<char>, Seq<Seq<char>>)>)> {
    g.profiles@.map_values(|e: (String, (String, Vec<compat::Nickname>))| (e.0@, old_nicknames_view(e.1.1)))
}

impl ServerView {
    /// The predicate "is an indexed name".
    pub open spec fn is_indexed(self) -> spec_fn(Seq<char>) -> bool {
        |n: Seq<char>| has_key(self.names, n)
    }

    /// The ids of the names that the index knows, in order; the others are dropped.
    pub open spec fn resolve_voters(self, votes: Seq<Seq<char>>) -> Seq<ProfilID> {
        votes.filter(self.is_indexed()).map_values(|n: Seq<char>| value_of(self.names, n))
    }

    /// An old nickname of the profile `id` as a proposition: its voters are
    /// the resolved names, its author the first of them, or `id` when there
    /// is none.
    pub open spec fn imported(self, id: ProfilID, old: (Seq<char>, Seq<Seq<char>>)) -> PropositionView {
        let votes = self.resolve_voters(old.1);
        PropositionView {
            author: if votes.len() > 0 { votes[0] } else { id },
            text: old.0,
            votes,
            protected: false,
        }
    }

    /// The registry after the old nicknames were appended, name by name, to
    /// the propositions of the profiles that the index knows; names without
    /// nicknames, or unknown, are skipped, and so are nicknames that trim to
    /// nothing.
    pub open spec fn after_import(self, entries: Seq<(Seq<char>, Seq<(Seq<char>, Seq<Seq<char>>)>)>) -> ServerView
        decreases entries.len(),
    {
        if entries.len() == 0 {
            self
        } else {
            let s = self.after_import(entries.drop_last());
            let name = entries.last().0;
            let olds = entries.last().1;
            if olds.len() == 0 || !has_key(s.names, name) {
                s
            } else {
                let id = value_of(s.names, name);
                s.with_propositions(
                    id,
                    s.propositions(id) + olds.filter(not_blank()).map_values(|o: (Seq<char>, Seq<Seq<char>>)| s.imported(id, o)),
                )
            }
        }
    }
}

/// The predicate "the old nickname's text does not trim to nothing".
pub open spec fn not_blank() -> spec_fn((Seq<char>, Seq<Seq<char>>)) -> bool {
    |o: (Seq<char>, Seq<Seq<char>>)| trimmed(o.0).len() > 0
}

/// Global storage of the registry's content.
pub struct DataServer {
    id_to_profil: MutationTracker<Vec<(ProfilID, Profil)>>,
    free_profil_id_beginning: u32,
    name_to_id: MutationTracker<Vec<(String, ProfilID)>>,
    classes: MutationTracker<Vec<(ClassID, Class)>>,
    free_class_id_beginning: u32,
    nick_name_proposition: MutationTracker<Vec<(ProfilID, Vec<NickNameProposition>)>>,
}

pub open spec fn profiles_view(v: Seq<(ProfilID, Profil)>) -> Seq<(ProfilID, ProfilView)> {
    map_vals(v, |p: Profil| p@)
}

pub open spec fn name_entry_view(e: (String, ProfilID)) -> (Seq<char>, ProfilID) {
    (e.0@, e.1)
}

impl View for DataServer {
    type V = ServerView;

    closed spec fn view(&self) -> ServerView {
        ServerView {
            profiles: profiles_view(self.id_to_profil.value()@),
            profile_ceiling: self.free_profil_id_beginning,
            names: self.name_to_id.value()@.map_values(|e: (String, ProfilID)| name_entry_view(e)),
            classes: map_vals(self.classes.value()@, |c: Class| c@),
            class_ceiling: self.free_class_id_beginning,
            ledger: map_vals(
                self.nick_name_proposition.value()@,
                |v: Vec<NickNameProposition>| propositions_view(v),
            ),
        }
    }
}

/// The position of `id` among the pairs, if it is there.
fn find_profil<V>(v: &Vec<(ProfilID, V)>, id: ProfilID) -> (r: Option<usize>)
    ensures
        match r {
            None => !has_key(v@, id),
            Some(i) => i < v@.len() && v@[i as int].0 == id,
        },
{
    let mut i: usize = 0;
    while i < v.len()
        invariant
            i <= v@.len(),
            forall|j: int| 0 <= j < i ==> v@[j].0 != id,
        decreases v.len() - i,
    {
        if v[i].0 == id {
            return Some(i);
        }
        i = i + 1;
    }
    None
}

/// The first class carrying `name`, if any.
fn find_class_by_name(v: &Vec<(ClassID, Class)>, name: &String) -> (r: Option<usize>)
    ensures
        match r {
            None => forall|j: int| 0 <= j < v@.len() ==> v@[j].1.name@ != name@,
            Some(i) => i < v@.len() && v@[i as int].1.name@ == name@ && forall|j: int|
                0 <= j < i ==> v@[j].1.name@ != name@,
        },
{
    let mut i: usize = 0;
    while i < v.len()
        invariant
            i <= v@.len(),
            forall|j: int| 0 <= j < i ==> v@[j].1.name@ != name@,
        decreases v.len() - i,
    {
        if v[i].1.name == *name {
            return Some(i);
        }
        i = i + 1;
    }
    None
}

/// The position of `name` in the name index, if it is there.
fn find_name(v: &Vec<(String, ProfilID)>, name: &String) -> (r: Option<usize>)
    ensures
        match r {
            None => forall|j: int| 0 <= j < v@.len() ==> v@[j].0@ != name@,
            Some(i) => i < v@.len() && v@[i as int].0@ == name@,
        },
{
    let mut i: usize = 0;
    while i < v.len()
        invariant
            i <= v@.len(),
            forall|j: int| 0 <= j < i ==> v@[j].0@ != name@,
        decreases v.len() - i,
    {
        if v[i].0 == *name {
            return Some(i);
        }
        i = i + 1;
    }
    None
}

/// The votes without those of `voter`.
fn without_voter(votes: &Vec<ProfilID>, voter: ProfilID) -> (r: Vec<ProfilID>)
    ensures
        r@ == votes@.filter(other_than(voter)),
{
    let mut r: Vec<ProfilID> = Vec::new();
    let mut i: usize = 0;
    while i < votes.len()
        invariant
            i <= votes@.len(),
            r@ == votes@.subrange(0, i as int).filter(other_than(voter)),
        decreases votes.len() - i,
    {
        proof {
            assert(votes@.subrange(0, i + 1).drop_last() =~= votes@.subrange(0, i as int));
            reveal(Seq::filter);
        }
        if votes[i] != voter {
            r.push(votes[i]);
        }
        i = i + 1;
    }
    assert(votes@.subrange(0, votes@.len() as int) =~= votes@);
    r
}

pub proof fn lemma_filter_no_duplicates<A>(s: Seq<A>, p: spec_fn(A) -> bool)
    requires
        s.no_duplicates(),
    ensures
        s.filter(p).no_duplicates(),
        forall|x: A| s.filter(p).contains(x) <==> s.contains(x) && p(x),
    decreases s.len(),
{
    reveal(Seq::filter);
    if s.len() > 0 {
        let t = s.drop_last();
        assert(t.no_duplicates());
        lemma_filter_no_duplicates(t, p);
        assert forall|x: A| s.contains(x) <==> t.contains(x) || x == s.last() by {
            if s.contains(x) && x != s.last() {
                let i = choose|i: int| 0 <= i < s.len() && s[i] == x;
                assert(t[i] == x);
            }
            if t.contains(x) {
                let i = choose|i: int| 0 <= i < t.len() && t[i] == x;
                assert(s[i] == x);
            }
        }
        if p(s.last()) {
            assert(!t.contains(s.last())) by {
                if t.contains(s.last()) {
                    let i = choose|i: int| 0 <= i < t.len() && t[i] == s.last();
                    assert(s[i] == s[s.len() - 1]);
                }
            }
        }
    }
}

/// The first proposition carrying `text`, if any.
fn position_of(props: &Vec<NickNameProposition>, text: &String) -> (r: Option<usize>)
    ensures
        match r {
            None => !has_text(propositions_view(*props), text@),
            Some(j) => is_first_text(propositions_view(*props), text@, j as int),
        },
{
    let ghost v = propositions_view(*props);
    let mut i: usize = 0;
    while i < props.len()
        invariant
            i <= props@.len(),
            v == propositions_view(*props),
            forall|k: int| 0 <= k < i ==> (#[trigger] v[k]).text != text@,
        decreases props.len() - i,
    {
        if props[i].proposition == *text {
            return Some(i);
        }
        i = i + 1;
    }
    None
}

/// Casts the vote of `voter` for `text` among the propositions.
fn vote_in(props: &mut Vec<NickNameProposition>, voter: ProfilID, text: String)
    ensures
        propositions_view(*final(props)) == vote_props(propositions_view(*old(props)), voter, text@),
{
    let ghost pre = propositions_view(*props);
    let mut found = false;
    let mut i: usize = 0;
    while i < props.len()
        invariant
            i <= props@.len(),
            props@.len() == pre.len(),
            found <==> exists|k: int| 0 <= k < i && (#[trigger] pre[k]).text == text@,
            forall|j: int| 0 <= j < i ==> #[trigger] props@[j]@ == vote_on(pre[j], voter, is_first_text(pre, text@, j)),
            forall|j: int| i <= j < props@.len() ==> #[trigger] props@[j]@ == pre[j],
        decreases props.len() - i,
    {
        let kept = without_voter(&props[i].votes, voter);
        let ghost before = props@;
        assert(before[i as int]@ == pre[i as int]);
        props[i].votes = kept;
        if !found && props[i].proposition == text {
            found = true;
            props[i].votes.push(voter);
        }
        assert(props@[i as int]@ =~= vote_on(pre[i as int], voter, is_first_text(pre, text@, i as int)));
        assert forall|j: int| 0 <= j < props@.len() && j != i implies props@[j] == before[j] by {}
        i = i + 1;
    }
    assert(found == has_text(pre, text@));
    let ghost voted = pre.map(|j: int, p: PropositionView| vote_on(p, voter, is_first_text(pre, text@, j)));
    assert(propositions_view(*props) =~= voted);
    if !found {
        let ghost before = props@;
        let mut votes: Vec<ProfilID> = Vec::new();
        votes.push(voter);
        let fresh = NickNameProposition { author: voter, proposition: text, votes, protected: false };
        assert(fresh@ =~= new_proposition(voter, text@));
        props.push(fresh);
        assert(propositions_view(*props) =~= voted.push(new_proposition(voter, text@)));
    }
}

/// Removes every vote of `voter` from the propositions.
fn strip_voter_from(props: &mut Vec<NickNameProposition>, voter: ProfilID)
    ensures
        propositions_view(*final(props)) == strip_all(propositions_view(*old(props)), voter),
{
    let ghost pre = propositions_view(*props);
    let mut i: usize = 0;
    while i < props.len()
        invariant
            i <= props@.len(),
            props@.len() == pre.len(),
            forall|j: int| 0 <= j < i ==> #[trigger] props@[j]@ == strip_votes(pre[j], voter),
            forall|j: int| i <= j < props@.len() ==> #[trigger] props@[j]@ == pre[j],
        decreases props.len() - i,
    {
        let stripped = without_voter(&props[i].votes, voter);
        let ghost before = props@;
        assert(before[i as int]@ == pre[i as int]);
        props[i].votes = stripped;
        assert(props@ =~= before.update(i as int, props@[i as int]));
        assert(props@[i as int]@ =~= strip_votes(pre[i as int], voter));
        i = i + 1;
    }
    assert(propositions_view(*props) =~= strip_all(pre, voter));
}

/// Removes every vote of `voter` from the ledger.
fn strip_voter_from_ledger(ledger: &mut Vec<(ProfilID, Vec<NickNameProposition>)>, voter: ProfilID)
    ensures
        map_vals(final(ledger)@, |v: Vec<NickNameProposition>| propositions_view(v)) == strip_voter(
            map_vals(old(ledger)@, |v: Vec<NickNameProposition>| propositions_view(v)),
            voter,
        ),
{
    let ghost pre = map_vals(ledger@, |v: Vec<NickNameProposition>| propositions_view(v));
    proof { lemma_map_vals(ledger@, |v: Vec<NickNameProposition>| propositions_view(v)); }
    let mut i: usize = 0;
    while i < ledger.len()
        invariant
            i <= ledger@.len(),
            ledger@.len() == pre.len(),
            forall|j: int| 0 <= j < i ==> #[trigger] ledger@[j].0 == pre[j].0 && propositions_view(ledger@[j].1) == strip_all(pre[j].1, voter),
            forall|j: int| i <= j < ledger@.len() ==> #[trigger] ledger@[j].0 == pre[j].0 && propositions_view(ledger@[j].1) == pre[j].1,
        decreases ledger.len() - i,
    {
        let ghost before = ledger@;
        assert(before[i as int].0 == pre[i as int].0 && propositions_view(before[i as int].1) == pre[i as int].1);
        strip_voter_from(&mut ledger[i].1, voter);
        assert(propositions_view(ledger@[i as int].1) == strip_all(pre[i as int].1, voter));
        assert(ledger@ =~= before.update(i as int, ledger@[i as int]));
        assert(ledger@[i as int].0 == before[i as int].0);
        assert forall|j: int| 0 <= j <= i implies #[trigger] ledger@[j].0 == pre[j].0 && propositions_view(ledger@[j].1) == strip_all(pre[j].1, voter) by {
            if j < i {
                assert(ledger@[j] == before[j]);
            }
        }
        i = i + 1;
    }
    proof {
        lemma_map_vals(ledger@, |v: Vec<NickNameProposition>| propositions_view(v));
        lemma_map_vals(pre, |props: Seq<PropositionView>| strip_all(props, voter));
    }
    assert(map_vals(ledger@, |v: Vec<NickNameProposition>| propositions_view(v)) =~= strip_voter(pre, voter));
}

/// Whether `id` is in the list.
fn contains_id(v: &Vec<ProfilID>, id: ProfilID) -> (r: bool)
    ensures
        r == v@.contains(id),
{
    let mut i: usize = 0;
    while i < v.len()
        invariant
            i <= v@.len(),
            forall|j: int| 0 <= j < i ==> v@[j] != id,
        decreases v.len() - i,
    {
        if v[i] == id {
            return true;
        }
        i = i + 1;
    }
    false
}

impl DataServer {
    pub closed spec fn wf(&self) -> bool {
        self@.wf()
    }

    /// Whether the profiles, the name index or the classes were handed out
    /// for mutation since they were last saved.
    pub closed spec fn profiles_dirty(&self) -> bool {
        self.id_to_profil.is_dirty() || self.name_to_id.is_dirty() || self.classes.is_dirty()
    }

    /// Whether the ledger was handed out for mutation since it was last saved.
    pub closed spec fn nicknames_dirty(&self) -> bool {
        self.nick_name_proposition.is_dirty()
    }

    /// A change is never lost: a part that changed, or was already dirty,
    /// is dirty afterwards.
    pub open spec fn changes_tracked(pre: ServerView, pre_dirty: (bool, bool), post: &DataServer) -> bool {
        &&& (pre_dirty.0 || pre.profiles != post@.profiles || pre.names != post@.names
            || pre.classes != post@.classes) ==> post.profiles_dirty()
        &&& (pre_dirty.1 || pre.ledger != post@.ledger) ==> post.nicknames_dirty()
    }

    proof fn lemma_view_facts(&self)
        ensures
            self@.profiles.len() == self.id_to_profil.value()@.len(),
            forall|i: int| 0 <= i < self@.profiles.len() ==> #[trigger] self@.profiles[i] == (self.id_to_profil.value()@[i].0, self.id_to_profil.value()@[i].1@),
            forall|k: ProfilID| has_key(self@.profiles, k) == has_key(self.id_to_profil.value()@, k),
            self@.classes.len() == self.classes.value()@.len(),
            forall|i: int| 0 <= i < self@.classes.len() ==> #[trigger] self@.classes[i] == (self.classes.value()@[i].0, self.classes.value()@[i].1@),
            forall|k: ClassID| has_key(self@.classes, k) == has_key(self.classes.value()@, k),
            self@.ledger.len() == self.nick_name_proposition.value()@.len(),
            forall|i: int| 0 <= i < self@.ledger.len() ==> #[trigger] self@.ledger[i] == (self.nick_name_proposition.value()@[i].0, propositions_view(self.nick_name_proposition.value()@[i].1)),
            forall|k: ProfilID| has_key(self@.ledger, k) == has_key(self.nick_name_proposition.value()@, k),
            self@.names.len() == self.name_to_id.value()@.len(),
            forall|i: int| 0 <= i < self@.names.len() ==> #[trigger] self@.names[i] == (self.name_to_id.value()@[i].0@, self.name_to_id.value()@[i].1),
    {
        lemma_map_vals(self.id_to_profil.value()@, |p: Profil| p@);
        lemma_map_vals(self.classes.value()@, |c: Class| c@);
        lemma_map_vals(
            self.nick_name_proposition.value()@,
            |v: Vec<NickNameProposition>| propositions_view(v),
        );
    }

    /// Check if two profiles share a class.
    pub fn are_in_same_class(&self, a: ProfilID, b: ProfilID) -> (r: bool)
        ensures
            r == self@.same_class(a, b),
    {
        proof { self.lemma_view_facts(); }
        if !self.profile_exists(a) || !self.profile_exists(b) {
            return false;
        }
        let classes = self.classes.get();
        let mut i: usize = 0;
        while i < classes.len()
            invariant
                classes@ == self.classes.value()@,
                i <= classes@.len(),
                self@.classes.len() == classes@.len(),
                forall|j: int| 0 <= j < self@.classes.len() ==> #[trigger] self@.classes[j] == (classes@[j].0, classes@[j].1@),
                self@.has_profile(a) && self@.has_profile(b),
                forall|c: int|
                    0 <= c < i ==> !((#[trigger] self@.classes[c]).1.members.contains(a)
                        && self@.classes[c].1.members.contains(b)),
            decreases classes.len() - i,
        {
            let members = &classes[i].1.profiles;
            if contains_id(members, a) && contains_id(members, b) {
                assert(self@.classes[i as int].1.members.contains(a));
                return true;
            }
            i = i + 1;
        }
        false
    }

    pub fn is_action_allowed_between(
        &self,
        interaction_permission: InteractionPermission,
        editor: ProfilID,
        target: ProfilID,
    ) -> (r: bool)
        ensures
            r == allowed_by(self@, interaction_permission, editor, target),
    {
        match interaction_permission {
            InteractionPermission::Forbidden => false,
            InteractionPermission::YourSelf => editor == target,
            InteractionPermission::SameClass => self.are_in_same_class(editor, target),
            InteractionPermission::AnyBody => true,
        }
    }

    pub fn get_permission(&self, profil_id: ProfilID) -> (r: Option<Permissions>)
        requires
            self.wf(),
        ensures
            r == self@.permission_of(profil_id),
    {
        proof { self.lemma_view_facts(); }
        let profiles = self.id_to_profil.get();
        match find_profil(profiles, profil_id) {
            None => None,
            Some(i) => {
                proof { lemma_index_of(self@.profiles, i as int); }
                Some(profiles[i].1.permissions)
            },
        }
    }

    /// The highest profile id handed out so far; a new profile takes the next one.
    pub fn profile_id_ceiling(&self) -> (r: u32)
        ensures
            r == self@.profile_ceiling,
    {
        self.free_profil_id_beginning
    }

    /// The highest class id handed out so far; a new class takes the next one.
    pub fn class_id_ceiling(&self) -> (r: u32)
        ensures
            r == self@.class_ceiling,
    {
        self.free_class_id_beginning
    }

    pub fn get_profil_id(&self, name: &String) -> (r: Result<ProfilID, ServerError>)
        requires
            self.wf(),
        ensures
            match self@.id_of_name(name@) {
                Some(id) => r == Ok::<ProfilID, ServerError>(id),
                None => r == Err::<ProfilID, ServerError>(ServerError::PersonDoesntExist),
            },
    {
        proof { self.lemma_view_facts(); }
        let names = self.name_to_id.get();
        match find_name(names, name) {
            None => {
                assert(!has_key(self@.names, name@));
                Err(ServerError::PersonDoesntExist)
            },
            Some(i) => {
                proof { lemma_index_of(self@.names, i as int); }
                Ok(names[i].1)
            },
        }
    }

    /// The credential check: the id of the profile that the name leads to,
    /// when the password is that profile's.
    pub fn verify_credentials(&self, identity: &Identity) -> (r: Option<ProfilID>)
        requires
            self.wf(),
        ensures
            r == match self@.id_of_name(identity.name@) {
                Some(id) => if self@.has_profile(id) && self@.profile(id).password == identity.password@ {
                    Some(id)
                } else {
                    None
                },
                None => None,
            },
    {
        proof { self.lemma_view_facts(); }
        match self.get_profil_id(&identity.name) {
            Err(_) => None,
            Ok(id) => {
                let profiles = self.id_to_profil.get();
                match find_profil(profiles, id) {
                    None => None,
                    Some(i) => {
                        proof { lemma_index_of(self@.profiles, i as int); }
                        if profiles[i].1.identity.password == identity.password {
                            Some(id)
                        } else {
                            None
                        }
                    },
                }
            },
        }
    }

    /// Return whether a user can log in: the name is indexed and the
    /// password is that of its profile.
    pub fn log(&self, identity: &Identity) -> (r: bool)
        requires
            self.wf(),
        ensures
            r == match self@.id_of_name(identity.name@) {
                Some(id) => self@.has_profile(id) && self@.profile(id).password == identity.password@,
                None => false,
            },
    {
        self.verify_credentials(identity).is_some()
    }

    pub fn get_password(&self, id: ProfilID) -> (r: Result<String, ServerError>)
        requires
            self.wf(),
        ensures
            r is Ok <==> self@.has_profile(id),
            r matches Ok(p) ==> p@ == self@.profile(id).password,
            r matches Err(e) ==> e == ServerError::PersonDoesntExist,
    {
        proof { self.lemma_view_facts(); }
        let profiles = self.id_to_profil.get();
        match find_profil(profiles, id) {
            None => Err(ServerError::PersonDoesntExist),
            Some(i) => {
                proof { lemma_index_of(self@.profiles, i as int); }
                Ok(profiles[i].1.identity.password.clone())
            },
        }
    }

    pub fn add_profile(&mut self, name: String, password: String) -> (r: Result<(), ServerError>)
        requires
            old(self).wf(),
            old(self)@.profile_ceiling < u32::MAX,
        ensures
            final(self).wf(),
            final(self).nicknames_dirty() == old(self).nicknames_dirty(),
            DataServer::changes_tracked(old(self)@, (old(self).profiles_dirty(), old(self).nicknames_dirty()), final(self)),
            if has_key(old(self)@.names, name@) {
                &&& r == Err::<(), ServerError>(ServerError::PersonAlreadyExist)
                &&& final(self)@ == old(self)@
            } else {
                &&& r == Ok::<(), ServerError>(())
                &&& final(self)@ == old(self)@.after_add_profile(name@, password@)
            },
    {
        proof { self.lemma_view_facts(); }
        let ghost pre = self@;
        match find_name(self.name_to_id.get(), &name) {
            Some(i) => {
                assert(pre.names[i as int].0 == name@);
                return Err(ServerError::PersonAlreadyExist);
            },
            None => {},
        }
        assert(!has_key(pre.names, name@));
        self.free_profil_id_beginning = self.free_profil_id_beginning + 1;
        let id = ProfilID(self.free_profil_id_beginning);
        let ghost pv = ProfilView { name: name@, password: password@, permissions: default_permissions() };
        self.name_to_id.get_mut().push((name.clone(), id));
        self.id_to_profil.get_mut().push(
            (id, Profil { identity: Identity { name, password }, permissions: Permissions::default() }),
        );
        proof {
            self.lemma_view_facts();
            let post = self@;
            assert(post.profiles =~= pre.profiles.push((id, pv)));
            assert(post.names =~= pre.names.push((pv.name, id)));
            assert(!has_key(pre.profiles, id)) by {
                if has_key(pre.profiles, id) {
                    let j = choose|j: int| 0 <= j < pre.profiles.len() && pre.profiles[j].0 == id;
                    assert(pre.profiles[j].0.0 <= pre.profile_ceiling);
                }
            }
            lemma_upsert(pre.profiles, id, pv);
            lemma_upsert(pre.names, pv.name, id);
            assert(upsert(pre.profiles, id, pv) == post.profiles);
            assert(upsert(pre.names, pv.name, id) == post.names);
            pre.lemma_names_by_key();
            assert forall|k: Seq<char>| #[trigger] has_key(post.names, k) implies has_key(post.profiles, value_of(post.names, k))
                && value_of(post.profiles, value_of(post.names, k)).name == k by {
                if k != pv.name {
                    assert(has_key(pre.names, k));
                    assert(value_of(pre.names, k) != id);
                }
            }
            post.lemma_names_by_key();
            assert forall|i: int| 0 <= i < post.profiles.len() implies #[trigger] post.profiles[i].0.0 <= post.profile_ceiling by {
                if i < pre.profiles.len() {
                    assert(post.profiles[i] == pre.profiles[i]);
                }
            }
            assert(post == pre.after_add_profile(name@, password@));
        }
        Ok(())
    }

    pub fn delete_profil(&mut self, profil: String) -> (r: Result<(), ServerError>)
        requires
            old(self).wf(),
        ensures
            final(self).wf(),
            DataServer::changes_tracked(old(self)@, (old(self).profiles_dirty(), old(self).nicknames_dirty()), final(self)),
            match old(self)@.id_of_name(profil@) {
                None => r == Err::<(), ServerError>(ServerError::PersonDoesntExist) && final(self)@ == old(self)@,
                Some(id) => r == Ok::<(), ServerError>(()) && final(self)@ == old(self)@.after_delete_profile(profil@, id),
            },
    {
        proof { self.lemma_view_facts(); }
        let ghost pre = self@;
        let i = match find_name(self.name_to_id.get(), &profil) {
            None => {
                assert(!has_key(pre.names, profil@));
                return Err(ServerError::PersonDoesntExist);
            },
            Some(i) => i,
        };
        proof { lemma_index_of(pre.names, i as int); }
        let (_, removed) = self.name_to_id.get_mut().remove(i);
        let profiles = self.id_to_profil.get_mut();
        match find_profil(profiles, removed) {
            Some(j) => {
                proof { lemma_index_of(pre.profiles, j as int); }
                profiles.remove(j);
            },
            None => {},
        }
        if removed.0 == self.free_profil_id_beginning && self.free_profil_id_beginning > 0 {
            self.free_profil_id_beginning = self.free_profil_id_beginning - 1;
        }
        let ledger = self.nick_name_proposition.get_mut();
        let ghost ledger0 = ledger@;
        match find_profil(ledger, removed) {
            Some(k) => {
                proof { lemma_index_of(pre.ledger, k as int); }
                ledger.remove(k);
            },
            None => {},
        }
        let ghost ledger1 = ledger@;
        strip_voter_from_ledger(ledger, removed);
        proof {
            self.lemma_view_facts();
            let post = self@;
            let spec_post = pre.after_delete_profile(profil@, removed);
            lemma_map_vals_ops(old(self).id_to_profil.value()@, |p: Profil| p@);
            lemma_map_vals_ops(ledger0, |v: Vec<NickNameProposition>| propositions_view(v));
            assert(post.names =~= spec_post.names);
            assert(post.profiles =~= spec_post.profiles);
            assert(map_vals(ledger1, |v: Vec<NickNameProposition>| propositions_view(v)) == remove_key(pre.ledger, removed));
            assert(post.ledger == spec_post.ledger);
            assert(post == spec_post);
            // well-formedness
            lemma_remove_key(pre.profiles, removed);
            lemma_remove_key(pre.names, profil@);
            lemma_remove_key(pre.ledger, removed);
            lemma_map_vals(remove_key(pre.ledger, removed), |props: Seq<PropositionView>| strip_all(props, removed));
            pre.lemma_names_by_key();
            assert forall|k: Seq<char>| #[trigger] has_key(post.names, k) implies has_key(post.profiles, value_of(post.names, k))
                && value_of(post.profiles, value_of(post.names, k)).name == k by {
                assert(k != profil@);
                assert(has_key(pre.names, k));
                assert(value_of(pre.names, k) != removed);
            }
            post.lemma_names_by_key();
            assert forall|j: int| 0 <= j < post.profiles.len() implies #[trigger] post.profiles[j].0.0 <= post.profile_ceiling by {
                let k = post.profiles[j].0;
                assert(has_key(post.profiles, k));
                assert(k != removed);
                assert(has_key(pre.profiles, k));
                lemma_index_of(pre.profiles, index_of(pre.profiles, k));
            }
        }
        Ok(())
    }

    pub fn change_name(&mut self, old_name: String, new_name: String) -> (r: Result<(), ServerError>)
        requires
            old(self).wf(),
        ensures
            final(self).wf(),
            final(self).nicknames_dirty() == old(self).nicknames_dirty(),
            DataServer::changes_tracked(old(self)@, (old(self).profiles_dirty(), old(self).nicknames_dirty()), final(self)),
            match old(self)@.id_of_name(old_name@) {
                None => r == Err::<(), ServerError>(ServerError::PersonDoesntExist) && final(self)@ == old(self)@,
                Some(id) => r == Ok::<(), ServerError>(()) && final(self)@ == old(self)@.after_change_name(old_name@, new_name@, id),
            },
    {
        proof { self.lemma_view_facts(); }
        let ghost pre = self@;
        let i = match find_name(self.name_to_id.get(), &old_name) {
            None => {
                assert(!has_key(pre.names, old_name@));
                return Err(ServerError::PersonDoesntExist);
            },
            Some(i) => i,
        };
        proof { lemma_index_of(pre.names, i as int); }
        let names = self.name_to_id.get_mut();
        let (_, id) = names.remove(i);
        let ghost names1 = names@;
        let ghost n1 = names1.map_values(|e: (String, ProfilID)| name_entry_view(e));
        proof {
            assert(n1 =~= remove_key(pre.names, old_name@));
            lemma_remove_key(pre.names, old_name@);
        }
        match find_name(names, &new_name) {
            Some(j) => {
                names[j].1 = id;
                proof {
                    lemma_index_of(n1, j as int);
                    assert(names@.map_values(|e: (String, ProfilID)| name_entry_view(e)) =~= upsert(n1, new_name@, id));
                }
            },
            None => {
                names.push((new_name.clone(), id));
                proof {
                    assert(!has_key(n1, new_name@));
                    assert(names@.map_values(|e: (String, ProfilID)| name_entry_view(e)) =~= upsert(n1, new_name@, id));
                }
            },
        }
        let ghost names2 = names@;
        let profiles = self.id_to_profil.get_mut();
        let k = match find_profil(profiles, id) {
            None => {
                // the index only leads to existing profiles
                assert(false);
                return Err(ServerError::PersonDoesntExist);
            },
            Some(k) => k,
        };
        proof { lemma_index_of(pre.profiles, k as int); }
        profiles[k].1.identity.name = new_name;
        proof {
            self.lemma_view_facts();
            let post = self@;
            let spec_post = pre.after_change_name(old_name@, new_name@, id);
            lemma_map_vals_ops(old(self).id_to_profil.value()@, |p: Profil| p@);
            lemma_upsert(n1, new_name@, id);
            assert(post.names =~= upsert(n1, new_name@, id));
            assert(post.profiles =~= spec_post.profiles);
            assert(post == spec_post);
            // well-formedness
            pre.lemma_with_profile(id, ProfilView { name: pre.profile(id).name, ..pre.profile(id) });
            lemma_upsert(pre.profiles, id, ProfilView { name: new_name@, ..pre.profile(id) });
            assert(post.profiles == upsert(pre.profiles, id, ProfilView { name: new_name@, ..pre.profile(id) }));
            pre.lemma_names_by_key();
            assert forall|key: Seq<char>| #[trigger] has_key(post.names, key) implies has_key(post.profiles, value_of(post.names, key))
                && value_of(post.profiles, value_of(post.names, key)).name == key by {
                if key != new_name@ {
                    assert(has_key(n1, key));
                    assert(key != old_name@);
                    assert(has_key(pre.names, key));
                    assert(value_of(pre.names, key) != id);
                }
            }
            post.lemma_names_by_key();
            assert forall|j: int| 0 <= j < post.profiles.len() implies #[trigger] post.profiles[j].0.0 <= post.profile_ceiling by {
                assert(post.profiles[j].0 == pre.profiles[j].0);
            }
        }
        Ok(())
    }

    pub fn add_class(&mut self, name: String) -> (r: Result<(), ServerError>)
        requires
            old(self).wf(),
            old(self)@.class_ceiling < u32::MAX,
        ensures
            final(self).wf(),
            final(self).nicknames_dirty() == old(self).nicknames_dirty(),
            DataServer::changes_tracked(old(self)@, (old(self).profiles_dirty(), old(self).nicknames_dirty()), final(self)),
            if old(self)@.has_class_named(name@) {
                &&& r == Err::<(), ServerError>(ServerError::ClassAlreadyExist)
                &&& final(self)@ == old(self)@
            } else {
                &&& r == Ok::<(), ServerError>(())
                &&& final(self)@ == old(self)@.after_add_class(name@)
            },
    {
        proof { self.lemma_view_facts(); }
        let ghost pre = self@;
        match find_class_by_name(self.classes.get(), &name) {
            Some(i) => {
                assert(pre.classes[i as int].1.name == name@);
                return Err(ServerError::ClassAlreadyExist);
            },
            None => {},
        }
        self.free_class_id_beginning = self.free_class_id_beginning + 1;
        let id = ClassID(self.free_class_id_beginning);
        self.classes.get_mut().push((id, Class { name, profiles: Vec::new() }));
        proof {
            self.lemma_view_facts();
            let post = self@;
            assert(post.classes =~= pre.after_add_class(name@).classes);
            assert(post == pre.after_add_class(name@));
            assert(!has_key(pre.classes, id)) by {
                if has_key(pre.classes, id) {
                    let j = choose|j: int| 0 <= j < pre.classes.len() && pre.classes[j].0 == id;
                    assert(pre.classes[j].0.0 <= pre.class_ceiling);
                }
            }
            lemma_upsert(pre.classes, id, ClassView { name: name@, members: Seq::empty() });
            assert(upsert(pre.classes, id, ClassView { name: name@, members: Seq::empty() }) == post.classes);
            assert forall|i: int| 0 <= i < post.classes.len() implies #[trigger] post.classes[i].0.0 <= post.class_ceiling
                && post.classes[i].1.members.no_duplicates() by {
                if i < pre.classes.len() {
                    assert(post.classes[i] == pre.classes[i]);
                }
            }
        }
        Ok(())
    }

    pub fn delete_class(&mut self, name: String) -> (r: Result<(), ServerError>)
        requires
            old(self).wf(),
        ensures
            final(self).wf(),
            final(self).nicknames_dirty() == old(self).nicknames_dirty(),
            DataServer::changes_tracked(old(self)@, (old(self).profiles_dirty(), old(self).nicknames_dirty()), final(self)),
            if old(self)@.has_class_named(name@) {
                &&& r == Ok::<(), ServerError>(())
                &&& final(self)@ == old(self)@.after_delete_class(old(self)@.class_named(name@))
            } else {
                &&& r == Err::<(), ServerError>(ServerError::ClassDoesntExist)
                &&& final(self)@ == old(self)@
            },
    {
        proof { self.lemma_view_facts(); }
        let ghost pre = self@;
        let c = match find_class_by_name(self.classes.get(), &name) {
            None => {
                assert(!pre.has_class_named(name@));
                return Err(ServerError::ClassDoesntExist);
            },
            Some(c) => c,
        };
        proof { pre.lemma_class_named(c as int, name@); }
        let (id, _) = self.classes.get_mut().remove(c);
        if id.0 == self.free_class_id_beginning && self.free_class_id_beginning > 0 {
            self.free_class_id_beginning = self.free_class_id_beginning - 1;
        }
        proof {
            self.lemma_view_facts();
            lemma_map_vals_ops(old(self).classes.value()@, |c: Class| c@);
            let post = self@;
            assert(post.classes == pre.classes.remove(c as int));
            assert(post == pre.after_delete_class(c as int));
            lemma_index_of(pre.classes, c as int);
            lemma_remove_key(pre.classes, id);
            assert(remove_key(pre.classes, id) == post.classes);
            assert forall|i: int| 0 <= i < post.classes.len() implies #[trigger] post.classes[i].0.0 <= post.class_ceiling
                && post.classes[i].1.members.no_duplicates() by {
                let j = if i < c { i } else { i + 1 };
                assert(post.classes[i] == pre.classes[j]);
                assert(j != c);
            }
        }
        Ok(())
    }

    pub fn add_to_class(&mut self, profil_id: ProfilID, class_name: String) -> (r: Result<(), ServerError>)
        requires
            old(self).wf(),
        ensures
            final(self).wf(),
            final(self).nicknames_dirty() == old(self).nicknames_dirty(),
            DataServer::changes_tracked(old(self)@, (old(self).profiles_dirty(), old(self).nicknames_dirty()), final(self)),
            if !old(self)@.has_class_named(class_name@) {
                &&& r == Err::<(), ServerError>(ServerError::ClassDoesntExist)
                &&& final(self)@ == old(self)@
            } else {
                let c = old(self)@.class_named(class_name@);
                let members = old(self)@.classes[c].1.members;
                if members.contains(profil_id) {
                    &&& r == Err::<(), ServerError>(ServerError::PersonAlreadyExist)
                    &&& final(self)@ == old(self)@
                } else {
                    &&& r == Ok::<(), ServerError>(())
                    &&& final(self)@ == old(self)@.with_members(c, members.push(profil_id))
                }
            },
    {
        proof { self.lemma_view_facts(); }
        let ghost pre = self@;
        let c = match find_class_by_name(self.classes.get(), &class_name) {
            None => {
                assert(!pre.has_class_named(class_name@));
                return Err(ServerError::ClassDoesntExist);
            },
            Some(c) => c,
        };
        proof { pre.lemma_class_named(c as int, class_name@); }
        if contains_id(&self.classes.get()[c].1.profiles, profil_id) {
            return Err(ServerError::PersonAlreadyExist);
        }
        let classes = self.classes.get_mut();
        classes[c].1.profiles.push(profil_id);
        proof {
            self.lemma_view_facts();
            lemma_map_vals_ops(old(self).classes.value()@, |c: Class| c@);
            let post = self@;
            assert(post.classes =~= pre.with_members(c as int, pre.classes[c as int].1.members.push(profil_id)).classes);
            assert forall|i: int| 0 <= i < post.classes.len() implies #[trigger] post.classes[i].0.0 <= post.class_ceiling
                && post.classes[i].1.members.no_duplicates() by {
                assert(post.classes[i].0 == pre.classes[i].0);
                if i != c {
                    assert(post.classes[i] == pre.classes[i]);
                }
            }
            assert forall|i: int, j: int| 0 <= i < post.classes.len() && 0 <= j < post.classes.len() && post.classes[i].0 == post.classes[j].0 implies i == j by {
                assert(post.classes[i].0 == pre.classes[i].0);
                assert(post.classes[j].0 == pre.classes[j].0);
            }
        }
        Ok(())
    }

    pub fn remove_from_class(&mut self, profil_id: ProfilID, class_name: String) -> (r: Result<(), ServerError>)
        requires
            old(self).wf(),
        ensures
            final(self).wf(),
            final(self).nicknames_dirty() == old(self).nicknames_dirty(),
            DataServer::changes_tracked(old(self)@, (old(self).profiles_dirty(), old(self).nicknames_dirty()), final(self)),
            if !old(self)@.has_class_named(class_name@) {
                &&& r == Err::<(), ServerError>(ServerError::ClassDoesntExist)
                &&& final(self)@ == old(self)@
            } else {
                let c = old(self)@.class_named(class_name@);
                let members = old(self)@.classes[c].1.members;
                if members.contains(profil_id) {
                    &&& r == Ok::<(), ServerError>(())
                    &&& final(self)@ == old(self)@.with_members(c, members.filter(other_than(profil_id)))
                } else {
                    &&& r == Err::<(), ServerError>(ServerError::PersonDoesntExist)
                    &&& final(self)@ == old(self)@
                }
            },
    {
        proof { self.lemma_view_facts(); }
        let ghost pre = self@;
        let c = match find_class_by_name(self.classes.get(), &class_name) {
            None => {
                assert(!pre.has_class_named(class_name@));
                return Err(ServerError::ClassDoesntExist);
            },
            Some(c) => c,
        };
        proof { pre.lemma_class_named(c as int, class_name@); }
        if !contains_id(&self.classes.get()[c].1.profiles, profil_id) {
            return Err(ServerError::PersonDoesntExist);
        }
        let kept = without_voter(&self.classes.get()[c].1.profiles, profil_id);
        let classes = self.classes.get_mut();
        classes[c].1.profiles = kept;
        proof {
            self.lemma_view_facts();
            lemma_map_vals_ops(old(self).classes.value()@, |c: Class| c@);
            lemma_filter_no_duplicates(pre.classes[c as int].1.members, other_than(profil_id));
            let post = self@;
            assert(post.classes =~= pre.with_members(c as int, pre.classes[c as int].1.members.filter(other_than(profil_id))).classes);
            assert forall|i: int| 0 <= i < post.classes.len() implies #[trigger] post.classes[i].0.0 <= post.class_ceiling
                && post.classes[i].1.members.no_duplicates() by {
                assert(post.classes[i].0 == pre.classes[i].0);
                if i != c {
                    assert(post.classes[i] == pre.classes[i]);
                }
            }
            assert forall|i: int, j: int| 0 <= i < post.classes.len() && 0 <= j < post.classes.len() && post.classes[i].0 == post.classes[j].0 implies i == j by {
                assert(post.classes[i].0 == pre.classes[i].0);
                assert(post.classes[j].0 == pre.classes[j].0);
            }
        }
        Ok(())
    }

    /// Mutable access to the policy of a profile.
    pub fn get_permissions_mut(&mut self, id: ProfilID) -> (r: Result<&mut Permissions, ServerError>)
        requires
            old(self).wf(),
        ensures
            old(self)@.has_profile(id) <==> r is Ok,
            r matches Err(e) ==> e == ServerError::PersonDoesntExist && *final(self) == *old(self),
            r matches Ok(p) ==> *p == old(self)@.profile(id).permissions,
            r matches Ok(p) ==> final(self)@ == old(self)@.with_profile(id, ProfilView { permissions: *final(p), ..old(self)@.profile(id) }),
            r matches Ok(p) ==> final(self).wf(),
            r matches Ok(p) ==> final(self).profiles_dirty(),
            r matches Ok(p) ==> final(self).nicknames_dirty() == old(self).nicknames_dirty(),
    {
        proof { self.lemma_view_facts(); }
        match find_profil(self.id_to_profil.get(), id) {
            None => Err(ServerError::PersonDoesntExist),
            Some(i) => {
                let ghost pre = self@;
                let ghost v0 = self.id_to_profil.value()@;
                proof {
                    lemma_index_of(pre.profiles, i as int);
                    assert forall|x: Permissions|
                        #[trigger] profiles_view(v0.update(i as int, (id, Profil { identity: v0[i as int].1.identity, permissions: x })))
                            == pre.with_profile(id, ProfilView { permissions: x, ..pre.profile(id) }).profiles
                        && pre.with_profile(id, ProfilView { permissions: x, ..pre.profile(id) }).wf() by {
                        lemma_map_vals_ops(v0, |p: Profil| p@);
                        pre.lemma_with_profile(id, ProfilView { permissions: x, ..pre.profile(id) });
                    }
                }
                let profiles = self.id_to_profil.get_mut();
                Ok(&mut profiles[i].1.permissions)
            },
        }
    }

    /// Voting and proposing a nickname are the same operation: proposing is
    /// voting for a text that no proposition carries yet. The text is
    /// trimmed first; an unknown voter or target, a missing right or an
    /// empty text leave everything as it is.
    pub fn vote(&mut self, voter: ProfilID, target: ProfilID, proposition: String)
        requires
            old(self).wf(),
        ensures
            final(self).wf(),
            final(self).profiles_dirty() == old(self).profiles_dirty(),
            DataServer::changes_tracked(old(self)@, (old(self).profiles_dirty(), old(self).nicknames_dirty()), final(self)),
            final(self)@ == old(self)@.after_vote(voter, target, trimmed(proposition@)),
    {
        let text = trim_text(&proposition);
        self.vote_trimmed(voter, target, text);
    }

    /// The vote of `voter` for `text`, taken as it is (see `vote`).
    pub fn vote_trimmed(&mut self, voter: ProfilID, target: ProfilID, text: String)
        requires
            old(self).wf(),
        ensures
            final(self).wf(),
            final(self).profiles_dirty() == old(self).profiles_dirty(),
            DataServer::changes_tracked(old(self)@, (old(self).profiles_dirty(), old(self).nicknames_dirty()), final(self)),
            final(self)@ == old(self)@.after_vote(voter, target, text@),
    {
        proof { self.lemma_view_facts(); }
        let ghost pre = self@;
        let permissions = match self.get_permission(voter) {
            None => return,
            Some(p) => p,
        };
        if !self.is_action_allowed_between(permissions.vote, voter, target) {
            return;
        }
        if text.as_str().is_empty() {
            return;
        }
        let idx = match find_profil(self.nick_name_proposition.get(), target) {
            Some(k) => {
                proof { lemma_index_of(pre.ledger, k as int); }
                k
            },
            None => {
                if find_profil(self.id_to_profil.get(), target).is_none() {
                    return;
                }
                let ledger = self.nick_name_proposition.get_mut();
                let empty: Vec<NickNameProposition> = Vec::new();
                assert(propositions_view(empty) =~= Seq::<PropositionView>::empty());
                ledger.push((target, empty));
                ledger.len() - 1
            },
        };
        let ghost mid = self.nick_name_proposition.value()@;
        let ledger = self.nick_name_proposition.get_mut();
        vote_in(&mut ledger[idx].1, voter, text);
        proof {
            self.lemma_view_facts();
            lemma_map_vals_ops(mid, |v: Vec<NickNameProposition>| propositions_view(v));
            lemma_map_vals(mid, |v: Vec<NickNameProposition>| propositions_view(v));
            let props = vote_props(pre.propositions(target), voter, text@);
            pre.lemma_with_propositions(target, props);
            if has_key(pre.ledger, target) {
                assert(self@.ledger =~= pre.ledger.update(idx as int, (target, props)));
            } else {
                assert(self@.ledger =~= pre.ledger.push((target, props)));
            }
            assert(self@ == pre.with_propositions(target, props));
        }
    }

    /// Attempt a deletion: the proposition `nickname` of `target` goes when
    /// `deleter` may delete it (see `deletable`); otherwise nothing changes.
    pub fn delete(&mut self, deleter: ProfilID, target: ProfilID, nickname: String)
        requires
            old(self).wf(),
        ensures
            final(self).wf(),
            final(self).profiles_dirty() == old(self).profiles_dirty(),
            DataServer::changes_tracked(old(self)@, (old(self).profiles_dirty(), old(self).nicknames_dirty()), final(self)),
            final(self)@ == old(self)@.after_delete(deleter, target, nickname@),
    {
        proof { self.lemma_view_facts(); }
        let ghost pre = self@;
        let permissions = match self.get_permission(deleter) {
            None => return,
            Some(p) => p,
        };
        let is_allowed_to_delete = self.is_action_allowed_between(permissions.delete, deleter, target);
        let can_by_pass_protect = self.is_action_allowed_between(permissions.protect_nickname, deleter, target);
        let idx = match find_profil(self.nick_name_proposition.get(), target) {
            None => return,
            Some(k) => k,
        };
        proof { lemma_index_of(pre.ledger, idx as int); }
        let j = match position_of(&self.nick_name_proposition.get()[idx].1, &nickname) {
            None => return,
            Some(j) => j,
        };
        let ghost props = pre.propositions(target);
        proof { lemma_text_position(props, nickname@, j as int); }
        let n = &self.nick_name_proposition.get()[idx].1[j];
        if (is_allowed_to_delete || n.author == deleter) && (!n.protected || can_by_pass_protect) {
            let ghost mid = self.nick_name_proposition.value()@;
            let ledger = self.nick_name_proposition.get_mut();
            ledger[idx].1.swap_remove(j);
            proof {
                self.lemma_view_facts();
                lemma_map_vals_ops(mid, |v: Vec<NickNameProposition>| propositions_view(v));
                lemma_map_vals(mid, |v: Vec<NickNameProposition>| propositions_view(v));
                let newp = swap_remove(props, j as int);
                assert(propositions_view(self.nick_name_proposition.value()@[idx as int].1) =~= newp);
                pre.lemma_with_propositions(target, newp);
                assert(self@.ledger =~= pre.ledger.update(idx as int, (target, newp)));
                assert(self@ == pre.with_propositions(target, newp));
            }
        }
    }

    /// Attempt to protect (or unprotect) a nickname proposition: it happens
    /// when `admin` has the right to protect towards `target` and the
    /// proposition exists.
    pub fn update_nickname_protection(&mut self, admin: ProfilID, target: ProfilID, nickname: String, new_statut: bool)
        requires
            old(self).wf(),
        ensures
            final(self).wf(),
            final(self).profiles_dirty() == old(self).profiles_dirty(),
            DataServer::changes_tracked(old(self)@, (old(self).profiles_dirty(), old(self).nicknames_dirty()), final(self)),
            final(self)@ == old(self)@.after_protect(admin, target, nickname@, new_statut),
    {
        proof { self.lemma_view_facts(); }
        let ghost pre = self@;
        let permissions = match self.get_permission(admin) {
            None => return,
            Some(p) => p,
        };
        if !self.is_action_allowed_between(permissions.protect_nickname, admin, target) {
            return;
        }
        let idx = match find_profil(self.nick_name_proposition.get(), target) {
            None => return,
            Some(k) => k,
        };
        proof { lemma_index_of(pre.ledger, idx as int); }
        let j = match position_of(&self.nick_name_proposition.get()[idx].1, &nickname) {
            None => return,
            Some(j) => j,
        };
        let ghost props = pre.propositions(target);
        proof { lemma_text_position(props, nickname@, j as int); }
        let ghost mid = self.nick_name_proposition.value()@;
        let ledger = self.nick_name_proposition.get_mut();
        ledger[idx].1[j].protected = new_statut;
        proof {
            self.lemma_view_facts();
            lemma_map_vals_ops(mid, |v: Vec<NickNameProposition>| propositions_view(v));
            lemma_map_vals(mid, |v: Vec<NickNameProposition>| propositions_view(v));
            let newp = props.update(j as int, PropositionView { protected: new_statut, ..props[j as int] });
            assert(propositions_view(self.nick_name_proposition.value()@[idx as int].1) =~= newp);
            pre.lemma_with_propositions(target, newp);
            assert(self@.ledger =~= pre.ledger.update(idx as int, (target, newp)));
            assert(self@ == pre.with_propositions(target, newp));
        }
    }

    /// Whether a requester can vote, delete and bypass protection towards a
    /// profile; all false for an unknown requester.
    pub fn get_permission_on_profil(&self, requester: ProfilID, asked_profil: ProfilID) -> (r: (bool, bool, bool))
        requires
            self.wf(),
        ensures
            r == self@.permission_flags(requester, asked_profil),
    {
        let permission = match self.get_permission(requester) {
            None => return (false, false, false),
            Some(p) => p,
        };
        (
            self.is_action_allowed_between(permission.vote, requester, asked_profil),
            self.is_action_allowed_between(permission.delete, requester, asked_profil),
            self.is_action_allowed_between(permission.protect_nickname, requester, asked_profil),
        )
    }

    /// The propositions made for a profile as `requester` (none: an
    /// unauthenticated viewer) sees them, most voted first, then by text.
    pub fn personne_profil(&self, requester: Option<ProfilID>, asked_profil: ProfilID) -> (r: s2c::Profile)
        requires
            self.wf(),
        ensures
            ({
                let flags = self@.requester_flags(requester, asked_profil);
                let props = self@.propositions(asked_profil);
                &&& r.profil_id == asked_profil
                &&& r.allowed_to_vote == flags.0
                &&& r.allowed_to_protect == flags.2
                &&& r.nicknames@.len() == props.len()
                &&& exists|order: Seq<usize>| {
                    &&& is_permutation(order, props.len() as int)
                    &&& forall|k: int| 0 <= k < props.len() ==> #[trigger] r.nicknames@[k]@ == statut_of(requester, flags, props[order[k] as int])
                }
                &&& forall|k: int, l: int| 0 <= k < l < r.nicknames@.len() ==> !ranks_before(
                    statut_key(r.nicknames@[l]@),
                    statut_key(r.nicknames@[k]@),
                )
            }),
    {
        proof { self.lemma_view_facts(); }
        let ghost flags = self@.requester_flags(requester, asked_profil);
        let (allowed_to_vote, allowed_to_delete, allowed_to_protect) = match requester {
            Some(r) => self.get_permission_on_profil(r, asked_profil),
            None => (false, false, false),
        };
        let mut nicknames: Vec<NicknameStatut> = Vec::new();
        let ledger = self.nick_name_proposition.get();
        match find_profil(ledger, asked_profil) {
            None => {
                proof {
                    assert(self@.propositions(asked_profil) =~= Seq::<PropositionView>::empty());
                    assert(is_permutation(Seq::<usize>::empty(), 0));
                }
            },
            Some(idx) => {
                proof { lemma_index_of(self@.ledger, idx as int); }
                let props = &ledger[idx].1;
                let ghost pv = propositions_view(*props);
                assert(pv == self@.propositions(asked_profil));
                let mut keys: Vec<(usize, String)> = Vec::new();
                let mut i: usize = 0;
                while i < props.len()
                    invariant
                        i <= props@.len(),
                        pv == propositions_view(*props),
                        keys@.len() == i,
                        forall|k: int| 0 <= k < i ==> #[trigger] key_view(keys@[k]) == rank_key(pv[k]),
                    decreases props.len() - i,
                {
                    keys.push((props[i].votes.len(), props[i].proposition.clone()));
                    i = i + 1;
                }
                assert(keys@.map_values(|k: (usize, String)| key_view(k)) =~= pv.map_values(|p: PropositionView| rank_key(p)));
                let order = rank_order(&keys);
                let mut k: usize = 0;
                while k < order.len()
                    invariant
                        k <= order@.len(),
                        pv == propositions_view(*props),
                        is_permutation(order@, pv.len() as int),
                        is_ranked(pv.map_values(|p: PropositionView| rank_key(p)), order@),
                        flags == (allowed_to_vote, allowed_to_delete, allowed_to_protect),
                        nicknames@.len() == k,
                        forall|m: int| 0 <= m < k ==> #[trigger] nicknames@[m]@ == statut_of(requester, flags, pv[order@[m] as int]),
                    decreases order.len() - k,
                {
                    let p = &props[order[k]];
                    let contain_you = match requester {
                        Some(r) => contains_id(&p.votes, r),
                        None => false,
                    };
                    let is_author = match requester {
                        Some(r) => r == p.author,
                        None => false,
                    };
                    nicknames.push(
                        NicknameStatut {
                            proposition: p.proposition.clone(),
                            count: p.votes.len(),
                            contain_you,
                            allowed_to_be_delete: (allowed_to_delete || is_author) && (!p.protected || allowed_to_protect),
                            protected: p.protected,
                        },
                    );
                    proof {
                        assert(nicknames@[k as int]@ =~= statut_of(requester, flags, pv[order@[k as int] as int]));
                    }
                    k = k + 1;
                }
                proof {
                    assert forall|a: int, b: int| 0 <= a < b < nicknames@.len() implies !ranks_before(
                        statut_key(nicknames@[b]@),
                        statut_key(nicknames@[a]@),
                    ) by {
                        assert(statut_key(nicknames@[b]@) == rank_key(pv[order@[b] as int]));
                        assert(statut_key(nicknames@[a]@) == rank_key(pv[order@[a] as int]));
                        assert(pv.map_values(|p: PropositionView| rank_key(p))[order@[b] as int] == rank_key(pv[order@[b] as int]));
                        assert(pv.map_values(|p: PropositionView| rank_key(p))[order@[a] as int] == rank_key(pv[order@[a] as int]));
                    }
                }
            },
        }
        s2c::Profile { profil_id: asked_profil, nicknames, allowed_to_vote, allowed_to_protect }
    }

    /// Whether the profile under `id` exists.
    fn profile_exists(&self, id: ProfilID) -> (r: bool)
        ensures
            r == self@.has_profile(id),
    {
        proof { self.lemma_view_facts(); }
        find_profil(self.id_to_profil.get(), id).is_some()
    }

    /// Whether some class holds `id`.
    fn is_in_some_class(&self, id: ProfilID) -> (r: bool)
        ensures
            r == self@.in_some_class(id),
    {
        proof { self.lemma_view_facts(); }
        let classes = self.classes.get();
        let mut c: usize = 0;
        while c < classes.len()
            invariant
                classes@ == self.classes.value()@,
                c <= classes@.len(),
                self@.classes.len() == classes@.len(),
                forall|j: int| 0 <= j < self@.classes.len() ==> #[trigger] self@.classes[j] == (classes@[j].0, classes@[j].1@),
                forall|d: int| 0 <= d < c ==> !(#[trigger] self@.classes[d]).1.members.contains(id),
            decreases classes.len() - c,
        {
            if contains_id(&classes[c].1.profiles, id) {
                assert(self@.classes[c as int].1.members.contains(id));
                return true;
            }
            c = c + 1;
        }
        false
    }

    /// The members that have a profile, each with its name.
    fn present_members_of(&self, members: &Vec<ProfilID>) -> (r: Vec<(ProfilID, String)>)
        requires
            self.wf(),
        ensures
            r@.map_values(|e: (ProfilID, String)| pair_view(e)) == self@.present_members(members@),
    {
        proof { self.lemma_view_facts(); }
        let profiles = self.id_to_profil.get();
        let mut r: Vec<(ProfilID, String)> = Vec::new();
        let mut j: usize = 0;
        while j < members.len()
            invariant
                profiles@ == self.id_to_profil.value()@,
                self.wf(),
                j <= members@.len(),
                r@.map_values(|e: (ProfilID, String)| pair_view(e)) == self@.present_members(members@.subrange(0, j as int)),
            decreases members.len() - j,
        {
            let ghost before = r@;
            proof {
                reveal(Seq::filter);
                assert(members@.subrange(0, j + 1).drop_last() =~= members@.subrange(0, j as int));
                self.lemma_view_facts();
            }
            match find_profil(profiles, members[j]) {
                Some(i) => {
                    proof { lemma_index_of(self@.profiles, i as int); }
                    r.push((members[j], profiles[i].1.identity.name.clone()));
                    assert(r@.map_values(|e: (ProfilID, String)| pair_view(e)) =~= before.map_values(|e: (ProfilID, String)| pair_view(e)).push((members@[j as int], self@.profile(members@[j as int]).name)));
                },
                None => {},
            }
            j = j + 1;
        }
        assert(members@.subrange(0, members@.len() as int) =~= members@);
        r
    }

    /// The list of classes, each with its members that have a profile.
    pub fn class_list(&self) -> (r: s2c::ClassList)
        requires
            self.wf(),
        ensures
            r.classes@.len() == self@.classes.len(),
            forall|c: int| 0 <= c < self@.classes.len() ==> {
                &&& (#[trigger] r.classes@[c]).0 == self@.classes[c].0
                &&& r.classes@[c].1.name@ == self@.classes[c].1.name
                &&& r.classes@[c].1.profiles@.map_values(|e: (ProfilID, String)| pair_view(e)) == self@.present_members(self@.classes[c].1.members)
            },
    {
        proof { self.lemma_view_facts(); }
        let classes = self.classes.get();
        let mut r: Vec<(ClassID, s2c::Class)> = Vec::new();
        let mut c: usize = 0;
        while c < classes.len()
            invariant
                classes@ == self.classes.value()@,
                self.wf(),
                c <= classes@.len(),
                r@.len() == c,
                self@.classes.len() == classes@.len(),
                forall|j: int| 0 <= j < self@.classes.len() ==> #[trigger] self@.classes[j] == (classes@[j].0, classes@[j].1@),
                forall|d: int| 0 <= d < c ==> {
                    &&& (#[trigger] r@[d]).0 == self@.classes[d].0
                    &&& r@[d].1.name@ == self@.classes[d].1.name
                    &&& r@[d].1.profiles@.map_values(|e: (ProfilID, String)| pair_view(e)) == self@.present_members(self@.classes[d].1.members)
                },
            decreases classes.len() - c,
        {
            let profiles = self.present_members_of(&classes[c].1.profiles);
            r.push((classes[c].0, s2c::Class { name: classes[c].1.name.clone(), profiles }));
            c = c + 1;
        }
        s2c::ClassList { classes: r }
    }

    /// The names of the profiles that no class holds, in storage order.
    pub fn find_people_out_of_any_class(&self) -> (r: Vec<String>)
        requires
            self.wf(),
        ensures
            r@.map_values(|s: String| s@) == self@.lonely().map_values(|e: (ProfilID, ProfilView)| e.1.name),
    {
        proof { self.lemma_view_facts(); }
        let profiles = self.id_to_profil.get();
        let mut r: Vec<String> = Vec::new();
        let mut i: usize = 0;
        while i < profiles.len()
            invariant
                profiles@ == self.id_to_profil.value()@,
                i <= profiles@.len(),
                self@.profiles.len() == profiles@.len(),
                forall|j: int| 0 <= j < self@.profiles.len() ==> #[trigger] self@.profiles[j] == (profiles@[j].0, profiles@[j].1@),
                r@.map_values(|s: String| s@) == self@.profiles.subrange(0, i as int).filter(|e: (ProfilID, ProfilView)| !self@.in_some_class(e.0)).map_values(|e: (ProfilID, ProfilView)| e.1.name),
            decreases profiles.len() - i,
        {
            let ghost before = r@;
            proof {
                reveal(Seq::filter);
                assert(self@.profiles.subrange(0, i + 1).drop_last() =~= self@.profiles.subrange(0, i as int));
            }
            if !self.is_in_some_class(profiles[i].0) {
                r.push(profiles[i].1.identity.name.clone());
                assert(r@.map_values(|s: String| s@) =~= before.map_values(|s: String| s@).push(self@.profiles[i as int].1.name));
            }
            i = i + 1;
        }
        assert(self@.profiles.subrange(0, profiles@.len() as int) =~= self@.profiles);
        r
    }

    /// The ids of the profiles that no class holds, in storage order.
    pub fn find_id_out_of_any_class(&self) -> (r: Vec<ProfilID>)
        requires
            self.wf(),
        ensures
            r@ == self@.lonely().map_values(|e: (ProfilID, ProfilView)| e.0),
    {
        proof { self.lemma_view_facts(); }
        let profiles = self.id_to_profil.get();
        let mut r: Vec<ProfilID> = Vec::new();
        let mut i: usize = 0;
        while i < profiles.len()
            invariant
                profiles@ == self.id_to_profil.value()@,
                i <= profiles@.len(),
                self@.profiles.len() == profiles@.len(),
                forall|j: int| 0 <= j < self@.profiles.len() ==> #[trigger] self@.profiles[j] == (profiles@[j].0, profiles@[j].1@),
                r@ == self@.profiles.subrange(0, i as int).filter(|e: (ProfilID, ProfilView)| !self@.in_some_class(e.0)).map_values(|e: (ProfilID, ProfilView)| e.0),
            decreases profiles.len() - i,
        {
            let ghost before = r@;
            proof {
                reveal(Seq::filter);
                assert(self@.profiles.subrange(0, i + 1).drop_last() =~= self@.profiles.subrange(0, i as int));
            }
            if !self.is_in_some_class(profiles[i].0) {
                r.push(profiles[i].0);
                assert(r@ =~= before.push(self@.profiles[i as int].0));
            }
            i = i + 1;
        }
        assert(self@.profiles.subrange(0, profiles@.len() as int) =~= self@.profiles);
        r
    }

    pub fn build_id_map(&self) -> (r: serialization::IdMap)
        requires
            self.wf(),
        ensures
            self@.is_id_map_of(r),
    {
        proof { self.lemma_view_facts(); }
        let profiles = self.id_to_profil.get();
        let mut profil_mapping: Vec<(ProfilID, String)> = Vec::new();
        let mut i: usize = 0;
        while i < profiles.len()
            invariant
                profiles@ == self.id_to_profil.value()@,
                i <= profiles@.len(),
                self@.profiles.len() == profiles@.len(),
                forall|j: int| 0 <= j < self@.profiles.len() ==> #[trigger] self@.profiles[j] == (profiles@[j].0, profiles@[j].1@),
                profil_mapping@.len() == i,
                forall|j: int| 0 <= j < i ==> #[trigger] pair_view(profil_mapping@[j]) == (self@.profiles[j].0, self@.profiles[j].1.name),
            decreases profiles.len() - i,
        {
            profil_mapping.push((profiles[i].0, profiles[i].1.identity.name.clone()));
            i = i + 1;
        }
        let classes = self.classes.get();
        let mut class_mapping: Vec<(ClassID, String)> = Vec::new();
        let mut c: usize = 0;
        while c < classes.len()
            invariant
                classes@ == self.classes.value()@,
                c <= classes@.len(),
                self@.classes.len() == classes@.len(),
                forall|j: int| 0 <= j < self@.classes.len() ==> #[trigger] self@.classes[j] == (classes@[j].0, classes@[j].1@),
                class_mapping@.len() == c,
                forall|j: int| 0 <= j < c ==> #[trigger] class_pair_view(class_mapping@[j]) == (self@.classes[j].0, self@.classes[j].1.name),
            decreases classes.len() - c,
        {
            class_mapping.push((classes[c].0, classes[c].1.name.clone()));
            c = c + 1;
        }
        let r = serialization::IdMap { profil_mapping, class_mapping };
        assert(r.profil_mapping@.map_values(|e: (ProfilID, String)| pair_view(e)) =~= self@.profiles.map_values(
            |e: (ProfilID, ProfilView)| (e.0, e.1.name),
        ));
        assert(r.class_mapping@.map_values(|e: (ClassID, String)| class_pair_view(e)) =~= self@.classes.map_values(
            |e: (ClassID, ClassView)| (e.0, e.1.name),
        ));
        r
    }

    pub fn build_people_repartition(&self) -> (r: serialization::PeopleRepartition)
        requires
            self.wf(),
        ensures
            self@.is_repartition_of(r),
    {
        proof { self.lemma_view_facts(); }
        let profiles = self.id_to_profil.get();
        let mut keys: Vec<(usize, String)> = Vec::new();
        let mut i: usize = 0;
        while i < profiles.len()
            invariant
                profiles@ == self.id_to_profil.value()@,
                i <= profiles@.len(),
                keys@.len() == i,
                forall|j: int| 0 <= j < i ==> #[trigger] key_view(keys@[j]) == (0int, profiles@[j].1.identity.name@),
            decreases profiles.len() - i,
        {
            keys.push((0, profiles[i].1.identity.name.clone()));
            i = i + 1;
        }
        let order = rank_order(&keys);
        let mut out: Vec<serialization::Profil> = Vec::new();
        let mut k: usize = 0;
        while k < order.len()
            invariant
                profiles@ == self.id_to_profil.value()@,
                self@.profiles.len() == profiles@.len(),
                forall|j: int| 0 <= j < self@.profiles.len() ==> #[trigger] self@.profiles[j] == (profiles@[j].0, profiles@[j].1@),
                keys@.len() == profiles@.len(),
                forall|j: int| 0 <= j < keys@.len() ==> #[trigger] key_view(keys@[j]) == (0int, profiles@[j].1.identity.name@),
                is_permutation(order@, profiles@.len() as int),
                is_ranked(keys@.map_values(|q: (usize, String)| key_view(q)), order@),
                k <= order@.len(),
                out@.len() == k,
                forall|m: int| 0 <= m < k ==> #[trigger] out@[m]@ == self@.profiles[order@[m] as int].1,
            decreases order.len() - k,
        {
            let p = &profiles[order[k]].1;
            out.push(serialization::Profil { identity: p.identity.duplicate(), permissions: p.permissions });
            k = k + 1;
        }
        proof {
            assert forall|a: int, b: int| 0 <= a < b < out@.len() implies !text_lt(
                (#[trigger] out@[b]).identity.name@,
                (#[trigger] out@[a]).identity.name@,
            ) by {
                let kv = keys@.map_values(|q: (usize, String)| key_view(q));
                assert(kv[order@[a] as int] == key_view(keys@[order@[a] as int]));
                assert(kv[order@[b] as int] == key_view(keys@[order@[b] as int]));
                assert(!ranks_before(kv[order@[b] as int], kv[order@[a] as int]));
                assert(out@[a]@ == self@.profiles[order@[a] as int].1);
                assert(out@[b]@ == self@.profiles[order@[b] as int].1);
                assert(self@.profiles[order@[a] as int] == (profiles@[order@[a] as int].0, profiles@[order@[a] as int].1@));
                assert(self@.profiles[order@[b] as int] == (profiles@[order@[b] as int].0, profiles@[order@[b] as int].1@));
            }
        }
        let classes = self.classes.get();
        let mut ckeys: Vec<(usize, String)> = Vec::new();
        let mut c: usize = 0;
        while c < classes.len()
            invariant
                classes@ == self.classes.value()@,
                c <= classes@.len(),
                ckeys@.len() == c,
                forall|j: int| 0 <= j < c ==> #[trigger] key_view(ckeys@[j]) == (0int, classes@[j].1.name@),
            decreases classes.len() - c,
        {
            ckeys.push((0, classes[c].1.name.clone()));
            c = c + 1;
        }
        let corder = rank_order(&ckeys);
        let mut cout: Vec<serialization::Class> = Vec::new();
        let mut k: usize = 0;
        while k < corder.len()
            invariant
                self.wf(),
                classes@ == self.classes.value()@,
                self@.classes.len() == classes@.len(),
                forall|j: int| 0 <= j < self@.classes.len() ==> #[trigger] self@.classes[j] == (classes@[j].0, classes@[j].1@),
                ckeys@.len() == classes@.len(),
                forall|j: int| 0 <= j < ckeys@.len() ==> #[trigger] key_view(ckeys@[j]) == (0int, classes@[j].1.name@),
                is_permutation(corder@, classes@.len() as int),
                is_ranked(ckeys@.map_values(|q: (usize, String)| key_view(q)), corder@),
                k <= corder@.len(),
                cout@.len() == k,
                forall|m: int| 0 <= m < k ==> {
                    &&& (#[trigger] cout@[m]).name@ == self@.classes[corder@[m] as int].1.name
                    &&& strings_view(cout@[m].people) == self@.present_members(self@.classes[corder@[m] as int].1.members).map_values(
                        |e: (ProfilID, Seq<char>)| e.1,
                    )
                },
            decreases corder.len() - k,
        {
            let class = &classes[corder[k]].1;
            let members = self.present_members_of(&class.profiles);
            let mut people: Vec<String> = Vec::new();
            let mut j: usize = 0;
            while j < members.len()
                invariant
                    j <= members@.len(),
                    people@.len() == j,
                    forall|m: int| 0 <= m < j ==> #[trigger] people@[m]@ == members@[m].1@,
                decreases members.len() - j,
            {
                people.push(members[j].1.clone());
                j = j + 1;
            }
            proof {
                let mv = members@.map_values(|e: (ProfilID, String)| pair_view(e));
                assert(strings_view(people) =~= mv.map_values(|e: (ProfilID, Seq<char>)| e.1));
            }
            cout.push(serialization::Class { name: class.name.clone(), people });
            k = k + 1;
        }
        proof {
            assert forall|a: int, b: int| 0 <= a < b < cout@.len() implies !text_lt(
                (#[trigger] cout@[b]).name@,
                (#[trigger] cout@[a]).name@,
            ) by {
                let kv = ckeys@.map_values(|q: (usize, String)| key_view(q));
                assert(kv[corder@[a] as int] == key_view(ckeys@[corder@[a] as int]));
                assert(kv[corder@[b] as int] == key_view(ckeys@[corder@[b] as int]));
                assert(!ranks_before(kv[corder@[b] as int], kv[corder@[a] as int]));
                assert(self@.classes[corder@[a] as int] == (classes@[corder@[a] as int].0, classes@[corder@[a] as int].1@));
                assert(self@.classes[corder@[b] as int] == (classes@[corder@[b] as int].0, classes@[corder@[b] as int].1@));
            }
        }
        let r = serialization::PeopleRepartition { profiles: out, classes: cout };
        proof {
            let pn = r.profiles@.map_values(|p: serialization::Profil| p.identity.name@);
            assert forall|a: int, b: int| 0 <= a < b < pn.len() implies !text_lt(#[trigger] pn[b], #[trigger] pn[a]) by {
                assert(pn[a] == r.profiles@[a].identity.name@);
                assert(pn[b] == r.profiles@[b].identity.name@);
            }
            let cn = r.classes@.map_values(|c: serialization::Class| c.name@);
            assert forall|a: int, b: int| 0 <= a < b < cn.len() implies !text_lt(#[trigger] cn[b], #[trigger] cn[a]) by {
                assert(cn[a] == r.classes@[a].name@);
                assert(cn[b] == r.classes@[b].name@);
            }
        }
        r
    }

    /// The profiles, name index and classes to store, when they were handed
    /// out for mutation since the last save; the dirty flags are cleared.
    pub fn try_to_save_profils(&mut self) -> (r: Option<(serialization::PeopleRepartition, serialization::IdMap)>)
        requires
            old(self).wf(),
        ensures
            final(self).wf(),
            final(self)@ == old(self)@,
            !final(self).profiles_dirty(),
            final(self).nicknames_dirty() == old(self).nicknames_dirty(),
            r is Some <==> old(self).profiles_dirty(),
            r matches Some(saved) ==> old(self)@.is_repartition_of(saved.0) && old(self)@.is_id_map_of(saved.1),
    {
        let a = self.id_to_profil.clear_dirty();
        let b = self.name_to_id.clear_dirty();
        let c = self.classes.clear_dirty();
        if a || b || c {
            let repartition = self.build_people_repartition();
            let id_map = self.build_id_map();
            Some((repartition, id_map))
        } else {
            None
        }
    }

    /// The ledger to store, when it was handed out for mutation since the
    /// last save; the dirty flag is cleared.
    pub fn try_to_save_nickname(&mut self) -> (r: Option<Vec<(ProfilID, Vec<NickNameProposition>)>>)
        requires
            old(self).wf(),
        ensures
            final(self).wf(),
            final(self)@ == old(self)@,
            !final(self).nicknames_dirty(),
            final(self).profiles_dirty() == old(self).profiles_dirty(),
            r is Some <==> old(self).nicknames_dirty(),
            r matches Some(saved) ==> map_vals(saved@, |v: Vec<NickNameProposition>| propositions_view(v)) == old(self)@.ledger,
    {
        if self.nick_name_proposition.clear_dirty() {
            let ledger = self.nick_name_proposition.get();
            let mut r: Vec<(ProfilID, Vec<NickNameProposition>)> = Vec::new();
            let mut i: usize = 0;
            while i < ledger.len()
                invariant
                    i <= ledger@.len(),
                    r@.len() == i,
                    forall|k: int| 0 <= k < i ==> #[trigger] r@[k].0 == ledger@[k].0 && propositions_view(r@[k].1) == propositions_view(ledger@[k].1),
                decreases ledger.len() - i,
            {
                r.push((ledger[i].0, copy_propositions(&ledger[i].1)));
                i = i + 1;
            }
            proof {
                lemma_map_vals(r@, |v: Vec<NickNameProposition>| propositions_view(v));
                lemma_map_vals(ledger@, |v: Vec<NickNameProposition>| propositions_view(v));
            }
            assert(map_vals(r@, |v: Vec<NickNameProposition>| propositions_view(v)) =~= map_vals(ledger@, |v: Vec<NickNameProposition>| propositions_view(v)));
            Some(r)
        } else {
            None
        }
    }

    /// Replaces the ledger by one that was stored; the ledger is then clean.
    pub fn load_proposition(&mut self, nick_name_proposition: Vec<(ProfilID, Vec<NickNameProposition>)>)
        requires
            old(self).wf(),
            keys_unique(nick_name_proposition@),
        ensures
            final(self).wf(),
            final(self)@ == (ServerView {
                ledger: map_vals(nick_name_proposition@, |v: Vec<NickNameProposition>| propositions_view(v)),
                ..old(self)@
            }),
            !final(self).nicknames_dirty(),
            final(self).profiles_dirty() == old(self).profiles_dirty(),
    {
        proof { lemma_map_vals(nick_name_proposition@, |v: Vec<NickNameProposition>| propositions_view(v)); }
        self.nick_name_proposition = MutationTracker::new(nick_name_proposition);
    }

    /// The ids of the names that the index knows, in order.
    fn resolve_names(&self, votes: &Vec<String>) -> (r: Vec<ProfilID>)
        requires
            self.wf(),
        ensures
            r@ == self@.resolve_voters(strings_view(*votes)),
    {
        let ghost sv = strings_view(*votes);
        let mut r: Vec<ProfilID> = Vec::new();
        let mut i: usize = 0;
        while i < votes.len()
            invariant
                self.wf(),
                i <= votes@.len(),
                sv == strings_view(*votes),
                r@ == self@.resolve_voters(sv.subrange(0, i as int)),
            decreases votes.len() - i,
        {
            let ghost before = r@;
            proof {
                reveal(Seq::filter);
                assert(sv.subrange(0, i + 1).drop_last() =~= sv.subrange(0, i as int));
            }
            match self.get_profil_id(&votes[i]) {
                Ok(id) => {
                    r.push(id);
                    assert(r@ =~= before.push(value_of(self@.names, sv[i as int])));
                },
                Err(_) => {},
            }
            i = i + 1;
        }
        assert(sv.subrange(0, votes@.len() as int) =~= sv);
        r
    }

    /// Appends the nicknames of an old group to the ledger (see
    /// `ServerView::after_import`).
    pub fn import_old_nickname(&mut self, group: compat::Group)
        requires
            old(self).wf(),
            forall|i: int, j: int| 0 <= i < group.profiles@.len() && 0 <= j < group.profiles@.len()
                && group.profiles@[i].0@ == group.profiles@[j].0@ ==> i == j,
        ensures
            final(self).wf(),
            final(self).profiles_dirty() == old(self).profiles_dirty(),
            DataServer::changes_tracked(old(self)@, (old(self).profiles_dirty(), old(self).nicknames_dirty()), final(self)),
            final(self)@ == old(self)@.after_import(group_view(group)),
    {
        let ghost pre = self@;
        let ghost entries = group_view(group);
        let mut i: usize = 0;
        while i < group.profiles.len()
            invariant
                self.wf(),
                i <= group.profiles@.len(),
                entries == group_view(group),
                self@ == pre.after_import(entries.subrange(0, i as int)),
                self@.names == pre.names,
                self@.profiles == pre.profiles,
                self@.classes == pre.classes,
                self.profiles_dirty() == old(self).profiles_dirty(),
                DataServer::changes_tracked(pre, (old(self).profiles_dirty(), old(self).nicknames_dirty()), self),
            decreases group.profiles.len() - i,
        {
            proof {
                assert(entries.subrange(0, i + 1).drop_last() =~= entries.subrange(0, i as int));
                assert(entries.subrange(0, i + 1).last() == entries[i as int]);
            }
            let ghost mid = self@;
            let olds = &group.profiles[i].1.1;
            if olds.len() > 0 {
                match self.get_profil_id(&group.profiles[i].0) {
                    Err(_) => {},
                    Ok(id) => {
                        let mut fresh: Vec<NickNameProposition> = Vec::new();
                        let ghost ov = old_nicknames_view(*olds);
                        let mut k: usize = 0;
                        assert(ov.subrange(0, 0).filter(not_blank()) =~= Seq::<(Seq<char>, Seq<Seq<char>>)>::empty()) by {
                            reveal(Seq::filter);
                        }
                        assert(propositions_view(fresh) =~= ov.subrange(0, 0).filter(not_blank()).map_values(|o: (Seq<char>, Seq<Seq<char>>)| mid.imported(id, o)));
                        while k < olds.len()
                            invariant
                                self.wf(),
                                self@ == mid,
                                k <= olds@.len(),
                                ov == old_nicknames_view(*olds),
                                propositions_view(fresh) == ov.subrange(0, k as int).filter(not_blank()).map_values(|o: (Seq<char>, Seq<Seq<char>>)| mid.imported(id, o)),
                            decreases olds.len() - k,
                        {
                            proof {
                                reveal(Seq::filter);
                                assert(ov.subrange(0, k + 1).drop_last() =~= ov.subrange(0, k as int));
                                assert(ov.subrange(0, k + 1).last() == ov[k as int]);
                            }
                            let ghost before = propositions_view(fresh);
                            let text = trim_text(&olds[k].nickname);
                            if !text.as_str().is_empty() {
                                let votes = self.resolve_names(&olds[k].votes);
                                let author = if votes.len() > 0 { votes[0] } else { id };
                                fresh.push(
                                    NickNameProposition {
                                        author,
                                        proposition: olds[k].nickname.clone(),
                                        votes,
                                        protected: false,
                                    },
                                );
                                assert(propositions_view(fresh) =~= before.push(mid.imported(id, ov[k as int])));
                            }
                            k = k + 1;
                        }
                        let ghost added = ov.filter(not_blank()).map_values(|o: (Seq<char>, Seq<Seq<char>>)| mid.imported(id, o));
                        assert(ov.subrange(0, olds@.len() as int) =~= ov);
                        assert(propositions_view(fresh) =~= added);
                        proof { self.lemma_view_facts(); }
                        let idx = match find_profil(self.nick_name_proposition.get(), id) {
                            Some(x) => {
                                proof { lemma_index_of(mid.ledger, x as int); }
                                x
                            },
                            None => {
                                let ledger = self.nick_name_proposition.get_mut();
                                let empty: Vec<NickNameProposition> = Vec::new();
                                assert(propositions_view(empty) =~= Seq::<PropositionView>::empty());
                                ledger.push((id, empty));
                                ledger.len() - 1
                            },
                        };
                        let ghost v1 = self.nick_name_proposition.value()@;
                        let ghost current = propositions_view(v1[idx as int].1);
                        proof {
                            self.lemma_view_facts();
                            assert(current == mid.propositions(id)) by {
                                if !has_key(mid.ledger, id) {
                                    assert(current =~= Seq::<PropositionView>::empty());
                                }
                            }
                        }
                        let ledger = self.nick_name_proposition.get_mut();
                        ledger[idx].1.append(&mut fresh);
                        proof {
                            self.lemma_view_facts();
                            lemma_map_vals_ops(v1, |v: Vec<NickNameProposition>| propositions_view(v));
                            lemma_map_vals(v1, |v: Vec<NickNameProposition>| propositions_view(v));
                            let newp = mid.propositions(id) + added;
                            assert(propositions_view(self.nick_name_proposition.value()@[idx as int].1) =~= newp);
                            mid.lemma_with_propositions(id, newp);
                            if has_key(mid.ledger, id) {
                                assert(self@.ledger =~= mid.ledger.update(idx as int, (id, newp)));
                            } else {
                                assert(self@.ledger =~= mid.ledger.push((id, newp)));
                            }
                            assert(self@ == mid.with_propositions(id, newp));
                        }
                    },
                }
            }
            i = i + 1;
        }
        assert(entries.subrange(0, group.profiles@.len() as int) =~= entries);
    }

    pub fn change_password(&mut self, id: ProfilID, new_password: String) -> (r: Result<(), ServerError>)
        requires
            old(self).wf(),
        ensures
            final(self).wf(),
            final(self).nicknames_dirty() == old(self).nicknames_dirty(),
            DataServer::changes_tracked(old(self)@, (old(self).profiles_dirty(), old(self).nicknames_dirty()), final(self)),
            if old(self)@.has_profile(id) {
                &&& r == Ok::<(), ServerError>(())
                &&& final(self)@ == old(self)@.with_profile(id, ProfilView { password: new_password@, ..old(self)@.profile(id) })
            } else {
                &&& r == Err::<(), ServerError>(ServerError::PersonDoesntExist)
                &&& final(self)@ == old(self)@
            },
    {
        proof { self.lemma_view_facts(); }
        let ghost pre = self@;
        let profiles = self.id_to_profil.get_mut();
        match find_profil(profiles, id) {
            None => Err(ServerError::PersonDoesntExist),
            Some(i) => {
                proof { lemma_index_of(pre.profiles, i as int); }
                profiles[i].1.identity.password = new_password;
                proof {
                    lemma_map_vals_ops(old(self).id_to_profil.value()@, |p: Profil| p@);
                    pre.lemma_with_profile(id, ProfilView { password: new_password@, ..pre.profile(id) });
                }
                Ok(())
            },
        }
    }
}

} // verus!
