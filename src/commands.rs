//! Administrative commands and their execution against the registry.

use crate::common::ProfilID;
use crate::data_server::keyed::has_key;
use crate::data_server::permissions::{InteractionPermission, Permissions};
use crate::data_server::text::{trim_text, trimmed};
use crate::data_server::{error_message, other_than, DataServer, ProfilView, ServerError, ServerView};
use vstd::prelude::*;

verus! {

/// Add a profile.
pub struct AddProfil {
    pub name: String,
    pub password: String,
}

/// Remove a profile.
pub struct DeleteProfil {
    pub name: String,
}

/// Create a new class.
pub struct AddClass {
    pub name: String,
}

/// Remove a class.
pub struct DeleteClass {
    pub name: String,
}

/// View someone's password.
pub struct ViewPassword {
    pub name: String,
}

/// Change someone's password.
pub struct ChangePassword {
    pub name: String,
    pub new_password: String,
}

/// Change someone's name.
pub struct ChangeName {
    pub name: String,
    pub new_name: String,
}

/// Add someone to a class.
pub struct AddToClass {
    pub profil_name: String,
    pub class_name: String,
}

/// Add to a class every person without an assigned class.
pub struct AddLonelyToClass {
    pub class: String,
}

/// Remove a person from a class.
pub struct RemoveFromClass {
    pub profil_name: String,
    pub class_name: String,
}

/// Which of the four settings of a policy to change, and its new value.
#[allow(inconsistent_fields)]
pub enum PermissionKind {
    Vote { permission: InteractionPermission },
    Delete { permission: InteractionPermission },
    Protect { permission: InteractionPermission },
    UseCmd { permission: bool },
}

/// Change someone's permissions.
pub struct ChangePermission {
    pub name: String,
    pub kind: PermissionKind,
}

/// The administrative commands.
pub enum Commands {
    Exit,
    AddProfil(AddProfil),
    DeleteProfil(DeleteProfil),
    AddClass(AddClass),
    DeleteClass(DeleteClass),
    ViewLonelyPeople,
    AddLonelyPeopleToClass(AddLonelyToClass),
    ViewPassword(ViewPassword),
    ChangePassword(ChangePassword),
    ChangeName(ChangeName),
    AddToClass(AddToClass),
    RemoveFromClass(RemoveFromClass),
    ChangePerm(ChangePermission),
}

/// The encoding in which the registry is saved.
#[derive(Copy, Clone, Debug, PartialEq, Eq, Structural)]
pub enum SaveFormat {
    Cbor,
    Json,
}

/// The registry with the encoding it is saved in.
pub struct AppState {
    pub data_server: DataServer,
    pub save_format: SaveFormat,
}

/// The policy with one setting changed.
pub open spec fn changed(p: Permissions, kind: PermissionKind) -> Permissions {
    match kind {
        PermissionKind::Vote { permission } => Permissions { vote: permission, ..p },
        PermissionKind::Delete { permission } => Permissions { delete: permission, ..p },
        PermissionKind::Protect { permission } => Permissions { protect_nickname: permission, ..p },
        PermissionKind::UseCmd { permission } => Permissions { allowed_to_use_cmd: permission, ..p },
    }
}

pub open spec fn lift(o: (ServerView, Result<(), ServerError>)) -> (ServerView, Result<Option<Seq<char>>, ServerError>) {
    (o.0, match o.1 {
        Ok(_) => Ok(None),
        Err(e) => Err(e),
    })
}

pub open spec fn outcome_view(r: Result<Option<String>, ServerError>) -> Result<Option<Seq<char>>, ServerError> {
    match r {
        Ok(Some(s)) => Ok(Some(s@)),
        Ok(None) => Ok(None),
        Err(e) => Err(e),
    }
}

pub open spec fn add_profile_outcome(s: ServerView, name: Seq<char>, password: Seq<char>) -> (ServerView, Result<(), ServerError>) {
    if has_key(s.names, name) {
        (s, Err(ServerError::PersonAlreadyExist))
    } else {
        (s.after_add_profile(name, password), Ok(()))
    }
}

pub open spec fn delete_profil_outcome(s: ServerView, name: Seq<char>) -> (ServerView, Result<(), ServerError>) {
    match s.id_of_name(name) {
        None => (s, Err(ServerError::PersonDoesntExist)),
        Some(id) => (s.after_delete_profile(name, id), Ok(())),
    }
}

pub open spec fn add_class_outcome(s: ServerView, name: Seq<char>) -> (ServerView, Result<(), ServerError>) {
    if s.has_class_named(name) {
        (s, Err(ServerError::ClassAlreadyExist))
    } else {
        (s.after_add_class(name), Ok(()))
    }
}

pub open spec fn delete_class_outcome(s: ServerView, name: Seq<char>) -> (ServerView, Result<(), ServerError>) {
    if s.has_class_named(name) {
        (s.after_delete_class(s.class_named(name)), Ok(()))
    } else {
        (s, Err(ServerError::ClassDoesntExist))
    }
}

pub open spec fn change_name_outcome(s: ServerView, old_name: Seq<char>, new_name: Seq<char>) -> (ServerView, Result<(), ServerError>) {
    match s.id_of_name(old_name) {
        None => (s, Err(ServerError::PersonDoesntExist)),
        Some(id) => (s.after_change_name(old_name, new_name, id), Ok(())),
    }
}

pub open spec fn change_password_outcome(s: ServerView, id: ProfilID, password: Seq<char>) -> (ServerView, Result<(), ServerError>) {
    if s.has_profile(id) {
        (s.with_profile(id, ProfilView { password, ..s.profile(id) }), Ok(()))
    } else {
        (s, Err(ServerError::PersonDoesntExist))
    }
}

pub open spec fn add_to_class_outcome(s: ServerView, id: ProfilID, name: Seq<char>) -> (ServerView, Result<(), ServerError>) {
    if !s.has_class_named(name) {
        (s, Err(ServerError::ClassDoesntExist))
    } else {
        let c = s.class_named(name);
        let members = s.classes[c].1.members;
        if members.contains(id) {
            (s, Err(ServerError::PersonAlreadyExist))
        } else {
            (s.with_members(c, members.push(id)), Ok(()))
        }
    }
}

pub open spec fn remove_from_class_outcome(s: ServerView, id: ProfilID, name: Seq<char>) -> (ServerView, Result<(), ServerError>) {
    if !s.has_class_named(name) {
        (s, Err(ServerError::ClassDoesntExist))
    } else {
        let c = s.class_named(name);
        let members = s.classes[c].1.members;
        if members.contains(id) {
            (s.with_members(c, members.filter(other_than(id))), Ok(()))
        } else {
            (s, Err(ServerError::PersonDoesntExist))
        }
    }
}

/// Adding the profiles one after the other to a class, stopping at the
/// first failure.
pub open spec fn add_all(s: ServerView, ids: Seq<ProfilID>, name: Seq<char>) -> (ServerView, Result<(), ServerError>)
    decreases ids.len(),
{
    if ids.len() == 0 {
        (s, Ok(()))
    } else {
        let prev = add_all(s, ids.drop_last(), name);
        if prev.1 is Err {
            prev
        } else {
            add_to_class_outcome(prev.0, ids.last(), name)
        }
    }
}

/// Once a failure happened, the later profiles change nothing.
pub proof fn lemma_add_all_stops(s: ServerView, ids: Seq<ProfilID>, k: int, name: Seq<char>)
    requires
        0 <= k <= ids.len(),
        add_all(s, ids.subrange(0, k), name).1 is Err,
    ensures
        add_all(s, ids, name) == add_all(s, ids.subrange(0, k), name),
    decreases ids.len(),
{
    if k < ids.len() {
        assert(ids.drop_last().subrange(0, k) =~= ids.subrange(0, k));
        lemma_add_all_stops(s, ids.drop_last(), k, name);
    } else {
        assert(ids.subrange(0, k) =~= ids);
    }
}

/// One line per name.
pub open spec fn listing(names: Seq<Seq<char>>) -> Seq<char>
    decreases names.len(),
{
    if names.len() == 0 {
        Seq::empty()
    } else {
        listing(names.drop_last()) + names.last() + seq!['\n']
    }
}

pub open spec fn lonely_report(names: Seq<Seq<char>>) -> Seq<char> {
    if names.len() == 0 {
        "No people found!\n"@
    } else {
        listing(names)
    }
}

/// What a command does to the registry, and what it answers.
pub open spec fn command_outcome(s: ServerView, c: Commands) -> (ServerView, Result<Option<Seq<char>>, ServerError>) {
    match c {
        Commands::Exit => (s, Ok(Some("You can't shutdown the server from here"@))),
        Commands::AddProfil(a) => lift(add_profile_outcome(s, a.name@, a.password@)),
        Commands::DeleteProfil(d) => lift(delete_profil_outcome(s, d.name@)),
        Commands::AddClass(a) => lift(add_class_outcome(s, a.name@)),
        Commands::DeleteClass(d) => lift(delete_class_outcome(s, d.name@)),
        Commands::ViewLonelyPeople => (s, Ok(Some(lonely_report(s.lonely().map_values(|e: (ProfilID, ProfilView)| e.1.name))))),
        Commands::AddLonelyPeopleToClass(a) => lift(add_all(s, s.lonely().map_values(|e: (ProfilID, ProfilView)| e.0), a.class@)),
        Commands::ViewPassword(v) => match s.id_of_name(v.name@) {
            Some(id) if s.has_profile(id) => (s, Ok(Some(v.name@ + " password is "@ + s.profile(id).password))),
            _ => (s, Err(ServerError::PersonDoesntExist)),
        },
        Commands::ChangePassword(c) => match s.id_of_name(c.name@) {
            Some(id) => lift(change_password_outcome(s, id, c.new_password@)),
            None => (s, Err(ServerError::PersonDoesntExist)),
        },
        Commands::ChangeName(c) => lift(change_name_outcome(s, c.name@, c.new_name@)),
        Commands::AddToClass(a) => match s.id_of_name(a.profil_name@) {
            Some(id) => lift(add_to_class_outcome(s, id, a.class_name@)),
            None => (s, Err(ServerError::PersonDoesntExist)),
        },
        Commands::RemoveFromClass(r) => match s.id_of_name(r.profil_name@) {
            Some(id) => lift(remove_from_class_outcome(s, id, r.class_name@)),
            None => (s, Err(ServerError::PersonDoesntExist)),
        },
        Commands::ChangePerm(c) => match s.id_of_name(c.name@) {
            Some(id) if s.has_profile(id) => (
                s.with_profile(id, ProfilView { permissions: changed(s.profile(id).permissions, c.kind), ..s.profile(id) }),
                Ok(None),
            ),
            _ => (s, Err(ServerError::PersonDoesntExist)),
        },
    }
}

fn unit_result(r: Result<(), ServerError>) -> (o: Result<Option<String>, ServerError>)
    ensures
        outcome_view(o) == match r {
            Ok(_) => Ok::<Option<Seq<char>>, ServerError>(None),
            Err(e) => Err(e),
        },
{
    match r {
        Ok(_) => Ok(None),
        Err(e) => Err(e),
    }
}

/// One line per name, or a notice when there is none.
fn report_lonely(names: &Vec<String>) -> (r: String)
    ensures
        r@ == lonely_report(names@.map_values(|s: String| s@)),
{
    let ghost nv = names@.map_values(|s: String| s@);
    let mut output = String::new();
    proof {
        reveal_strlit("\n");
        reveal_strlit("No people found!\n");
    }
    if names.len() == 0 {
        output.append("No people found!\n");
        return output;
    }
    let mut i: usize = 0;
    assert(nv.subrange(0, 0) =~= Seq::<Seq<char>>::empty());
    assert(output@ =~= listing(nv.subrange(0, 0)));
    while i < names.len()
        invariant
            i <= names@.len(),
            nv == names@.map_values(|s: String| s@),
            output@ == listing(nv.subrange(0, i as int)),
        decreases names.len() - i,
    {
        proof {
            assert(nv.subrange(0, i + 1).drop_last() =~= nv.subrange(0, i as int));
            assert(nv.subrange(0, i + 1).last() == nv[i as int]);
            reveal_strlit("\n");
        }
        output.append(names[i].as_str());
        output.append("\n");
        assert(output@ =~= listing(nv.subrange(0, i + 1)));
        i = i + 1;
    }
    assert(nv.subrange(0, names@.len() as int) =~= nv);
    output
}

/// What every command keeps: the invariant, and dirty flags for whatever changed.
pub open spec fn command_post(pre: &DataServer, post: &DataServer) -> bool {
    &&& post.wf()
    &&& DataServer::changes_tracked(pre@, (pre.profiles_dirty(), pre.nicknames_dirty()), post)
}

fn add_lonely_to_class(server: &mut DataServer, class: String) -> (r: Result<Option<String>, ServerError>)
    requires
        old(server).wf(),
    ensures
        command_post(old(server), final(server)),
        (final(server)@, outcome_view(r)) == lift(add_all(old(server)@, old(server)@.lonely().map_values(|e: (ProfilID, ProfilView)| e.0), class@)),
{
    let ghost pre = server@;
    let people = server.find_id_out_of_any_class();
    let mut outcome: Result<(), ServerError> = Ok(());
    let mut stop = false;
    let mut i: usize = 0;
    assert(people@.subrange(0, 0) =~= Seq::<ProfilID>::empty());
    while i < people.len() && !stop
        invariant
            server.wf(),
            i <= people@.len(),
            people@ == pre.lonely().map_values(|e: (ProfilID, ProfilView)| e.0),
            add_all(pre, people@.subrange(0, i as int), class@) == (server@, outcome),
            stop <==> outcome is Err,
            DataServer::changes_tracked(pre, (old(server).profiles_dirty(), old(server).nicknames_dirty()), server),
        decreases people.len() - i,
    {
        proof {
            assert(people@.subrange(0, i + 1).drop_last() =~= people@.subrange(0, i as int));
            assert(people@.subrange(0, i + 1).last() == people@[i as int]);
        }
        let ghost mid = server@;
        let added = server.add_to_class(people[i], class.clone());
        assert(add_to_class_outcome(mid, people@[i as int], class@) == (server@, added));
        match added {
            Ok(()) => {},
            Err(e) => {
                outcome = Err(e);
                stop = true;
            },
        }
        i = i + 1;
    }
    proof {
        if stop {
            lemma_add_all_stops(pre, people@, i as int, class@);
        } else {
            assert(people@.subrange(0, people@.len() as int) =~= people@);
        }
    }
    unit_result(outcome)
}

fn view_password(server: &DataServer, name: String) -> (r: Result<Option<String>, ServerError>)
    requires
        server.wf(),
    ensures
        (server@, outcome_view(r)) == command_outcome(server@, Commands::ViewPassword(ViewPassword { name })),
{
    let id = match server.get_profil_id(&name) {
        Ok(id) => id,
        Err(e) => return Err(e),
    };
    let password = match server.get_password(id) {
        Ok(p) => p,
        Err(e) => return Err(e),
    };
    let out = name.concat(" password is ").concat(password.as_str());
    Ok(Some(out))
}

fn change_permission(server: &mut DataServer, name: String, kind: PermissionKind) -> (r: Result<Option<String>, ServerError>)
    requires
        old(server).wf(),
    ensures
        command_post(old(server), final(server)),
        (final(server)@, outcome_view(r)) == command_outcome(old(server)@, Commands::ChangePerm(ChangePermission { name, kind })),
{
    let id = match server.get_profil_id(&name) {
        Ok(id) => id,
        Err(e) => return Err(e),
    };
    match server.get_permissions_mut(id) {
        Err(e) => Err(e),
        Ok(perm) => {
            match kind {
                PermissionKind::Vote { permission } => perm.vote = permission,
                PermissionKind::Delete { permission } => perm.delete = permission,
                PermissionKind::Protect { permission } => perm.protect_nickname = permission,
                PermissionKind::UseCmd { permission } => perm.allowed_to_use_cmd = permission,
            }
            Ok(None)
        },
    }
}

fn change_password_of(server: &mut DataServer, name: String, new_password: String) -> (r: Result<Option<String>, ServerError>)
    requires
        old(server).wf(),
    ensures
        command_post(old(server), final(server)),
        (final(server)@, outcome_view(r)) == command_outcome(old(server)@, Commands::ChangePassword(ChangePassword { name, new_password })),
{
    let id = match server.get_profil_id(&name) {
        Ok(id) => id,
        Err(e) => return Err(e),
    };
    unit_result(server.change_password(id, new_password))
}

fn add_named_to_class(server: &mut DataServer, profil_name: String, class_name: String) -> (r: Result<Option<String>, ServerError>)
    requires
        old(server).wf(),
    ensures
        command_post(old(server), final(server)),
        (final(server)@, outcome_view(r)) == command_outcome(old(server)@, Commands::AddToClass(AddToClass { profil_name, class_name })),
{
    let id = match server.get_profil_id(&profil_name) {
        Ok(id) => id,
        Err(e) => return Err(e),
    };
    unit_result(server.add_to_class(id, class_name))
}

fn remove_named_from_class(server: &mut DataServer, profil_name: String, class_name: String) -> (r: Result<Option<String>, ServerError>)
    requires
        old(server).wf(),
    ensures
        command_post(old(server), final(server)),
        (final(server)@, outcome_view(r)) == command_outcome(old(server)@, Commands::RemoveFromClass(RemoveFromClass { profil_name, class_name })),
{
    let id = match server.get_profil_id(&profil_name) {
        Ok(id) => id,
        Err(e) => return Err(e),
    };
    unit_result(server.remove_from_class(id, class_name))
}

/// The answer shown for a command's outcome: a confirmation, the command's
/// text trimmed, or the failure's message.
pub open spec fn reply_of(r: Result<Option<Seq<char>>, ServerError>) -> Seq<char> {
    match r {
        Ok(None) => "action performed successfully!"@,
        Ok(Some(t)) => trimmed(t),
        Err(e) => error_message(e),
    }
}

/// The text to show for a command's outcome.
pub fn reply_text(r: Result<Option<String>, ServerError>) -> (t: String)
    ensures
        t@ == reply_of(outcome_view(r)),
{
    match r {
        Ok(None) => String::from_str("action performed successfully!"),
        Ok(Some(text)) => trim_text(&text),
        Err(e) => e.message(),
    }
}

impl AppState {
    /// Whether the profile may run administrative commands; an unknown id
    /// may not.
    pub fn may_use_commands(&self, id: ProfilID) -> (r: bool)
        requires
            self.data_server.wf(),
        ensures
            r == match self.data_server@.permission_of(id) {
                Some(p) => p.allowed_to_use_cmd,
                None => false,
            },
    {
        match self.data_server.get_permission(id) {
            Some(p) => p.allowed_to_use_cmd,
            None => false,
        }
    }

    /// Runs an administrative command (see `command_outcome`).
    pub fn execute_command(&mut self, command: Commands) -> (r: Result<Option<String>, ServerError>)
        requires
            old(self).data_server.wf(),
            command is AddProfil ==> old(self).data_server@.profile_ceiling < u32::MAX,
            command is AddClass ==> old(self).data_server@.class_ceiling < u32::MAX,
        ensures
            command_post(&old(self).data_server, &final(self).data_server),
            final(self).save_format == old(self).save_format,
            (final(self).data_server@, outcome_view(r)) == command_outcome(old(self).data_server@, command),
    {
        let server = &mut self.data_server;
        match command {
            Commands::Exit => {
                let r = String::from_str("You can't shutdown the server from here");
                Ok(Some(r))
            },
            Commands::AddProfil(AddProfil { name, password }) => unit_result(server.add_profile(name, password)),
            Commands::DeleteProfil(DeleteProfil { name }) => unit_result(server.delete_profil(name)),
            Commands::AddClass(AddClass { name }) => unit_result(server.add_class(name)),
            Commands::DeleteClass(DeleteClass { name }) => unit_result(server.delete_class(name)),
            Commands::ViewLonelyPeople => {
                let peoples = server.find_people_out_of_any_class();
                Ok(Some(report_lonely(&peoples)))
            },
            Commands::AddLonelyPeopleToClass(AddLonelyToClass { class }) => add_lonely_to_class(server, class),
            Commands::ViewPassword(ViewPassword { name }) => view_password(server, name),
            Commands::ChangePassword(ChangePassword { name, new_password }) => change_password_of(server, name, new_password),
            Commands::ChangeName(ChangeName { name, new_name }) => unit_result(server.change_name(name, new_name)),
            Commands::AddToClass(AddToClass { profil_name, class_name }) => add_named_to_class(server, profil_name, class_name),
            Commands::RemoveFromClass(RemoveFromClass { profil_name, class_name }) => remove_named_from_class(server, profil_name, class_name),
            Commands::ChangePerm(ChangePermission { name, kind }) => change_permission(server, name, kind),
        }
    }
}

} // verus!
