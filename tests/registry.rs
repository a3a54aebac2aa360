use nickname_server::common::{ClassID, Identity, ProfilID};
use nickname_server::data_server::compat::{Group, Nickname};
use nickname_server::data_server::mutation_tracker::MutationTracker;
use nickname_server::data_server::permissions::{not, InteractionPermission, Permissions};
use nickname_server::data_server::serialization::{IdMap, PeopleRepartition};
use nickname_server::data_server::{DataServer, NickNameProposition, ServerError};

fn empty_server() -> DataServer {
    DataServer::new(PeopleRepartition::default(), IdMap::default())
}

fn id_of(server: &DataServer, name: &str) -> ProfilID {
    server.get_profil_id(&name.to_string()).unwrap()
}

/// A class "C" holding Alice and Bob, with Carol and Admin outside it.
fn sample_server() -> DataServer {
    let mut server = empty_server();
    server.add_class("C".to_string()).unwrap();
    for (name, password) in [("Alice", "a"), ("Bob", "b"), ("Carol", "c"), ("Admin", "x")] {
        server.add_profile(name.to_string(), password.to_string()).unwrap();
    }
    let alice = id_of(&server, "Alice");
    let bob = id_of(&server, "Bob");
    server.add_to_class(alice, "C".to_string()).unwrap();
    server.add_to_class(bob, "C".to_string()).unwrap();
    server
}

fn texts(server: &DataServer, requester: Option<ProfilID>, target: ProfilID) -> Vec<(String, usize)> {
    server
        .personne_profil(requester, target)
        .nicknames
        .iter()
        .map(|n| (n.proposition.clone(), n.count))
        .collect()
}

#[test]
fn end_to_end_nickname_scenario() {
    let mut server = sample_server();
    let alice = id_of(&server, "Alice");
    let bob = id_of(&server, "Bob");
    let carol = id_of(&server, "Carol");
    let admin = id_of(&server, "Admin");

    server.vote(alice, bob, "Boblet".to_string());
    let view = server.personne_profil(Some(alice), bob);
    assert_eq!(view.profil_id, bob);
    assert_eq!(view.nicknames.len(), 1);
    assert_eq!(view.nicknames[0].proposition, "Boblet");
    assert_eq!(view.nicknames[0].count, 1);
    assert!(view.nicknames[0].contain_you);
    assert!(view.nicknames[0].allowed_to_be_delete);
    assert!(!view.nicknames[0].protected);
    assert!(view.allowed_to_vote);
    assert!(!view.allowed_to_protect);

    // Carol shares no class with Bob.
    server.vote(carol, bob, "Carolet".to_string());
    assert_eq!(texts(&server, Some(carol), bob), vec![("Boblet".to_string(), 1)]);

    {
        let perms = server.get_permissions_mut(admin).unwrap();
        perms.protect_nickname = InteractionPermission::AnyBody;
        perms.delete = InteractionPermission::AnyBody;
    }
    server.update_nickname_protection(admin, bob, "Boblet".to_string(), true);
    let view = server.personne_profil(Some(alice), bob);
    assert!(view.nicknames[0].protected);
    assert!(!view.nicknames[0].allowed_to_be_delete);

    server.delete(alice, bob, "Boblet".to_string());
    assert_eq!(texts(&server, Some(alice), bob).len(), 1);

    server.delete(admin, bob, "Boblet".to_string());
    assert!(texts(&server, Some(admin), bob).is_empty());
}

#[test]
fn same_class_policy_needs_a_shared_class() {
    let server = sample_server();
    let alice = id_of(&server, "Alice");
    let bob = id_of(&server, "Bob");
    let carol = id_of(&server, "Carol");
    let same = InteractionPermission::SameClass;
    assert!(server.are_in_same_class(alice, bob));
    assert!(server.is_action_allowed_between(same, alice, bob));
    assert!(server.is_action_allowed_between(same, alice, alice));
    assert!(!server.is_action_allowed_between(same, alice, carol));
    assert!(!server.is_action_allowed_between(same, carol, carol));
    assert!(!server.is_action_allowed_between(same, alice, ProfilID(999)));
    assert!(!server.is_action_allowed_between(same, ProfilID(999), bob));
}

#[test]
fn other_policies() {
    let server = sample_server();
    let alice = id_of(&server, "Alice");
    let carol = id_of(&server, "Carol");
    assert!(!server.is_action_allowed_between(InteractionPermission::Forbidden, alice, alice));
    assert!(server.is_action_allowed_between(InteractionPermission::YourSelf, alice, alice));
    assert!(!server.is_action_allowed_between(InteractionPermission::YourSelf, alice, carol));
    assert!(server.is_action_allowed_between(InteractionPermission::AnyBody, alice, carol));
}

#[test]
fn voting_twice_is_idempotent() {
    let mut server = sample_server();
    let alice = id_of(&server, "Alice");
    let bob = id_of(&server, "Bob");
    server.vote(alice, bob, "Boblet".to_string());
    server.vote(alice, bob, "Boblet".to_string());
    assert_eq!(texts(&server, Some(alice), bob), vec![("Boblet".to_string(), 1)]);
}

#[test]
fn voting_again_moves_the_vote() {
    let mut server = sample_server();
    let alice = id_of(&server, "Alice");
    let bob = id_of(&server, "Bob");
    server.vote(alice, bob, "A".to_string());
    server.vote(alice, bob, "B".to_string());
    let view = server.personne_profil(Some(alice), bob);
    assert_eq!(view.nicknames.len(), 2);
    assert_eq!(view.nicknames[0].proposition, "B");
    assert_eq!(view.nicknames[0].count, 1);
    assert!(view.nicknames[0].contain_you);
    assert_eq!(view.nicknames[1].proposition, "A");
    assert_eq!(view.nicknames[1].count, 0);
    assert!(!view.nicknames[1].contain_you);
}

#[test]
fn vote_text_is_trimmed_and_blank_is_ignored() {
    let mut server = sample_server();
    let alice = id_of(&server, "Alice");
    let bob = id_of(&server, "Bob");
    server.vote(alice, bob, "   ".to_string());
    assert!(texts(&server, Some(alice), bob).is_empty());
    server.vote(alice, bob, "  Boblet \n".to_string());
    assert_eq!(texts(&server, Some(alice), bob), vec![("Boblet".to_string(), 1)]);
}

#[test]
fn vote_for_unknown_target_or_by_unknown_voter_does_nothing() {
    let mut server = sample_server();
    let alice = id_of(&server, "Alice");
    {
        let perms = server.get_permissions_mut(alice).unwrap();
        perms.vote = InteractionPermission::AnyBody;
    }
    server.vote(alice, ProfilID(999), "Ghost".to_string());
    assert!(texts(&server, Some(alice), ProfilID(999)).is_empty());
    let bob = id_of(&server, "Bob");
    server.vote(ProfilID(999), bob, "Ghost".to_string());
    assert!(texts(&server, None, bob).is_empty());
}

#[test]
fn author_deletes_despite_forbidden_policy() {
    let mut server = sample_server();
    let alice = id_of(&server, "Alice");
    let bob = id_of(&server, "Bob");
    server.vote(alice, bob, "Boblet".to_string());
    server.get_permissions_mut(alice).unwrap().delete = InteractionPermission::Forbidden;
    server.delete(alice, bob, "Boblet".to_string());
    assert!(texts(&server, Some(alice), bob).is_empty());
}

#[test]
fn protected_proposition_survives_unprivileged_delete() {
    let mut server = sample_server();
    let alice = id_of(&server, "Alice");
    let bob = id_of(&server, "Bob");
    let admin = id_of(&server, "Admin");
    server.vote(alice, bob, "Boblet".to_string());
    server.vote(bob, bob, "Me".to_string());
    server.get_permissions_mut(admin).unwrap().protect_nickname = InteractionPermission::AnyBody;
    server.update_nickname_protection(admin, bob, "Boblet".to_string(), true);
    // Bob may delete propositions made for himself, but not a protected one.
    server.delete(bob, bob, "Boblet".to_string());
    server.delete(alice, bob, "Boblet".to_string());
    assert_eq!(texts(&server, None, bob).len(), 2);
    server.update_nickname_protection(admin, bob, "Boblet".to_string(), false);
    server.delete(bob, bob, "Boblet".to_string());
    assert_eq!(texts(&server, None, bob), vec![("Me".to_string(), 1)]);
}

#[test]
fn protection_needs_the_right() {
    let mut server = sample_server();
    let alice = id_of(&server, "Alice");
    let bob = id_of(&server, "Bob");
    server.vote(alice, bob, "Boblet".to_string());
    server.update_nickname_protection(alice, bob, "Boblet".to_string(), true);
    assert!(!server.personne_profil(None, bob).nicknames[0].protected);
}

#[test]
fn display_order_is_by_count_then_text() {
    let mut server = sample_server();
    let alice = id_of(&server, "Alice");
    let bob = id_of(&server, "Bob");
    for name in ["Carol", "Admin"] {
        let id = id_of(&server, name);
        server.add_to_class(id, "C".to_string()).unwrap();
    }
    let carol = id_of(&server, "Carol");
    let admin = id_of(&server, "Admin");
    server.vote(alice, bob, "zeta".to_string());
    server.vote(carol, bob, "beta".to_string());
    server.vote(admin, bob, "alpha".to_string());
    server.vote(bob, bob, "zeta".to_string());
    assert_eq!(
        texts(&server, None, bob),
        vec![("zeta".to_string(), 2), ("alpha".to_string(), 1), ("beta".to_string(), 1)]
    );
    let anonymous = server.personne_profil(None, bob);
    assert!(!anonymous.allowed_to_vote);
    assert!(anonymous.nicknames.iter().all(|n| !n.contain_you && !n.allowed_to_be_delete));
}

#[test]
fn administrative_errors() {
    let mut server = sample_server();
    let alice = id_of(&server, "Alice");
    let carol = id_of(&server, "Carol");
    assert_eq!(server.add_profile("Alice".to_string(), "z".to_string()), Err(ServerError::PersonAlreadyExist));
    assert_eq!(server.delete_profil("Nobody".to_string()), Err(ServerError::PersonDoesntExist));
    assert_eq!(server.add_class("C".to_string()), Err(ServerError::ClassAlreadyExist));
    assert_eq!(server.delete_class("D".to_string()), Err(ServerError::ClassDoesntExist));
    assert_eq!(server.add_to_class(alice, "C".to_string()), Err(ServerError::PersonAlreadyExist));
    assert_eq!(server.add_to_class(alice, "D".to_string()), Err(ServerError::ClassDoesntExist));
    assert_eq!(server.remove_from_class(carol, "C".to_string()), Err(ServerError::PersonDoesntExist));
    assert_eq!(server.remove_from_class(alice, "C".to_string()), Ok(()));
    assert_eq!(server.change_name("Nobody".to_string(), "X".to_string()), Err(ServerError::PersonDoesntExist));
    assert_eq!(server.change_password(ProfilID(999), "p".to_string()), Err(ServerError::PersonDoesntExist));
    assert_eq!(server.get_password(ProfilID(999)), Err(ServerError::PersonDoesntExist));
    assert_eq!(server.get_profil_id(&"Nobody".to_string()), Err(ServerError::PersonDoesntExist));
    assert!(server.get_permissions_mut(ProfilID(999)).is_err());
    assert_eq!(ServerError::ClassDoesntExist.message(), "This class does not exist");
}

#[test]
fn ids_are_allocated_in_sequence() {
    let server = sample_server();
    assert_eq!(id_of(&server, "Alice"), ProfilID(1));
    assert_eq!(id_of(&server, "Admin"), ProfilID(4));
    assert_eq!(server.profile_id_ceiling(), 4);
    assert_eq!(server.class_id_ceiling(), 1);
    assert_eq!(server.class_list().classes[0].0, ClassID(1));
}

#[test]
fn password_and_name_changes() {
    let mut server = sample_server();
    let alice = id_of(&server, "Alice");
    assert!(server.log(&Identity { name: "Alice".to_string(), password: "a".to_string() }));
    assert!(!server.log(&Identity { name: "Alice".to_string(), password: "b".to_string() }));
    assert_eq!(
        server.verify_credentials(&Identity { name: "Alice".to_string(), password: "a".to_string() }),
        Some(alice)
    );
    assert_eq!(server.verify_credentials(&Identity { name: "Alice".to_string(), password: "b".to_string() }), None);
    assert_eq!(server.verify_credentials(&Identity { name: "Nobody".to_string(), password: "a".to_string() }), None);
    server.change_password(alice, "new".to_string()).unwrap();
    assert_eq!(server.get_password(alice), Ok("new".to_string()));
    server.change_name("Alice".to_string(), "Alicia".to_string()).unwrap();
    assert_eq!(server.get_profil_id(&"Alice".to_string()), Err(ServerError::PersonDoesntExist));
    assert_eq!(id_of(&server, "Alicia"), alice);
    assert!(server.log(&Identity { name: "Alicia".to_string(), password: "new".to_string() }));
}

#[test]
fn deleting_a_profile_removes_its_votes_and_propositions() {
    let mut server = sample_server();
    let alice = id_of(&server, "Alice");
    let bob = id_of(&server, "Bob");
    let admin = id_of(&server, "Admin");
    server.vote(alice, bob, "Boblet".to_string());
    server.vote(bob, alice, "Ali".to_string());
    server.delete_profil("Alice".to_string()).unwrap();
    assert_eq!(texts(&server, None, bob), vec![("Boblet".to_string(), 0)]);
    assert!(texts(&server, None, alice).is_empty());
    // the last id handed out is given back when its profile goes
    server.delete_profil("Admin".to_string()).unwrap();
    assert_eq!(server.profile_id_ceiling(), 3);
    server.add_profile("Dave".to_string(), "d".to_string()).unwrap();
    assert_eq!(id_of(&server, "Dave"), admin);
}

#[test]
fn lonely_profiles() {
    let server = sample_server();
    let mut lonely = server.find_people_out_of_any_class();
    lonely.sort();
    assert_eq!(lonely, vec!["Admin".to_string(), "Carol".to_string()]);
    let ids = server.find_id_out_of_any_class();
    assert_eq!(ids.len(), 2);
}

#[test]
fn class_listing() {
    let mut server = sample_server();
    server.add_class("B".to_string()).unwrap();
    let list = server.class_list();
    assert_eq!(list.classes.len(), 2);
    assert_eq!(list.classes[0].1.name, "C");
    let members: Vec<String> = list.classes[0].1.profiles.iter().map(|(_, n)| n.clone()).collect();
    assert_eq!(members, vec!["Alice".to_string(), "Bob".to_string()]);
    assert_eq!(list.classes[1].0, ClassID(2));
    server.delete_class("C".to_string()).unwrap();
    assert_eq!(server.class_list().classes.len(), 1);
    // class ids are not profile ids
    server.add_class("E".to_string()).unwrap();
    assert_eq!(server.class_id_ceiling(), 3);
}

#[test]
fn dirty_flags_are_taken_once() {
    let mut server = sample_server();
    assert!(server.try_to_save_profils().is_some());
    assert!(server.try_to_save_profils().is_none());
    assert!(server.try_to_save_nickname().is_none());
    let alice = id_of(&server, "Alice");
    let bob = id_of(&server, "Bob");
    server.vote(alice, bob, "Boblet".to_string());
    let saved = server.try_to_save_nickname().unwrap();
    assert_eq!(saved.len(), 1);
    assert_eq!(saved[0].1[0].proposition, "Boblet");
    assert!(server.try_to_save_nickname().is_none());
    assert!(server.try_to_save_profils().is_none());
    assert!(empty_server().try_to_save_profils().is_none());
}

#[test]
fn mutation_tracker_marks_mutable_access() {
    let mut t = MutationTracker::new(5u32);
    assert!(!t.clear_dirty());
    assert_eq!(*t.get(), 5);
    assert!(!t.clear_dirty());
    *t.get_mut() += 1;
    assert!(t.clear_dirty());
    assert!(!t.clear_dirty());
    let _ = t.get_mut();
    assert!(t.clear_dirty());
    assert_eq!(*t.get(), 6);
    let mut d: MutationTracker<Vec<u8>> = MutationTracker::default();
    assert!(!d.clear_dirty());
}

#[test]
fn stored_form_round_trip() {
    let mut server = sample_server();
    server.add_class("B".to_string()).unwrap();
    let carol = id_of(&server, "Carol");
    server.add_to_class(carol, "B".to_string()).unwrap();
    server.get_permissions_mut(carol).unwrap().allowed_to_use_cmd = true;
    server.delete_profil("Alice".to_string()).unwrap();
    let repartition = server.build_people_repartition();
    let names: Vec<String> = repartition.profiles.iter().map(|p| p.identity.name.clone()).collect();
    assert_eq!(names, vec!["Admin".to_string(), "Bob".to_string(), "Carol".to_string()]);
    let class_names: Vec<String> = repartition.classes.iter().map(|c| c.name.clone()).collect();
    assert_eq!(class_names, vec!["B".to_string(), "C".to_string()]);
    assert_eq!(repartition.classes[1].people, vec!["Bob".to_string()]);
    let id_map = server.build_id_map();
    let reloaded = DataServer::new(repartition, id_map);
    for name in ["Admin", "Bob", "Carol"] {
        let id = id_of(&server, name);
        assert_eq!(id_of(&reloaded, name), id);
        assert_eq!(reloaded.get_permission(id), server.get_permission(id));
        assert_eq!(reloaded.get_password(id), server.get_password(id));
    }
    let mut a = server.class_list().classes;
    let mut b = reloaded.class_list().classes;
    a.sort_by_key(|(id, _)| id.0);
    b.sort_by_key(|(id, _)| id.0);
    assert_eq!(a.len(), b.len());
    for ((ia, ca), (ib, cb)) in a.iter().zip(b.iter()) {
        assert_eq!(ia, ib);
        assert_eq!(ca.name, cb.name);
        assert_eq!(ca.profiles, cb.profiles);
    }
}

#[test]
fn loading_allocates_ids_above_the_map() {
    let repartition = PeopleRepartition {
        profiles: vec![
            nickname_server::data_server::serialization::Profil {
                identity: Identity { name: "Zed".to_string(), password: "z".to_string() },
                permissions: Permissions::default(),
            },
            nickname_server::data_server::serialization::Profil {
                identity: Identity { name: "Amy".to_string(), password: "y".to_string() },
                permissions: Permissions::default(),
            },
        ],
        classes: vec![nickname_server::data_server::serialization::Class {
            name: "K".to_string(),
            people: vec!["Amy".to_string(), "Unknown".to_string(), "Amy".to_string()],
        }],
    };
    let id_map = IdMap { profil_mapping: vec![(ProfilID(7), "Amy".to_string())], class_mapping: vec![] };
    let server = DataServer::new(repartition, id_map);
    assert_eq!(id_of(&server, "Amy"), ProfilID(7));
    assert_eq!(id_of(&server, "Zed"), ProfilID(8));
    assert_eq!(server.profile_id_ceiling(), 8);
    let list = server.class_list();
    assert_eq!(list.classes[0].0, ClassID(1));
    assert_eq!(list.classes[0].1.profiles, vec![(ProfilID(7), "Amy".to_string())]);
}

#[test]
fn loading_and_importing_propositions() {
    let mut server = sample_server();
    let alice = id_of(&server, "Alice");
    let bob = id_of(&server, "Bob");
    server.load_proposition(vec![(
        bob,
        vec![NickNameProposition { author: alice, proposition: "Bobby".to_string(), votes: vec![alice], protected: true }],
    )]);
    assert!(server.try_to_save_nickname().is_none());
    assert!(server.personne_profil(None, bob).nicknames[0].protected);
    let group = Group {
        profiles: vec![
            ("Alice".to_string(), ("a".to_string(), vec![])),
            (
                "Bob".to_string(),
                (
                    "b".to_string(),
                    vec![
                        Nickname { nickname: "Bobo".to_string(), votes: vec!["Ghost".to_string(), "Carol".to_string()] },
                        Nickname { nickname: "B".to_string(), votes: vec![] },
                        Nickname { nickname: " \t ".to_string(), votes: vec!["Carol".to_string()] },
                    ],
                ),
            ),
            ("Ghost".to_string(), ("g".to_string(), vec![Nickname { nickname: "G".to_string(), votes: vec![] }])),
        ],
    };
    server.import_old_nickname(group);
    let saved = server.try_to_save_nickname().unwrap();
    assert_eq!(saved.len(), 1);
    let props = &saved[0].1;
    assert_eq!(props.len(), 3);
    let carol = id_of(&server, "Carol");
    assert_eq!(props[1].proposition, "Bobo");
    assert_eq!(props[1].votes, vec![carol]);
    assert_eq!(props[1].author, carol);
    assert_eq!(props[2].author, bob);
    assert!(props[2].votes.is_empty());
    assert!(texts(&server, None, alice).is_empty());
}

#[test]
fn permission_helpers() {
    let d = Permissions::default();
    assert!(d.is_default());
    assert!(d.vote.is_same_class());
    assert!(d.delete.is_yourself());
    assert!(d.protect_nickname.is_forbidden());
    assert!(!d.allowed_to_use_cmd);
    assert_eq!(InteractionPermission::forbidden(), InteractionPermission::Forbidden);
    assert_eq!(InteractionPermission::yourself(), InteractionPermission::YourSelf);
    assert_eq!(InteractionPermission::same_class(), InteractionPermission::SameClass);
    let changed = Permissions { allowed_to_use_cmd: true, ..d };
    assert!(!changed.is_default());
    assert!(not(&false));
    assert!(!not(&true));
}

#[test]
fn deleted_profile_left_in_a_class_shares_no_class() {
    let mut server = sample_server();
    let alice = id_of(&server, "Alice");
    let bob = id_of(&server, "Bob");
    server.delete_profil("Alice".to_string()).unwrap();
    let same = InteractionPermission::SameClass;
    assert!(!server.are_in_same_class(alice, bob));
    assert!(!server.is_action_allowed_between(same, alice, bob));
    assert!(!server.is_action_allowed_between(same, bob, alice));
    server.add_to_class(ProfilID(42), "C".to_string()).unwrap();
    assert!(!server.is_action_allowed_between(same, bob, ProfilID(42)));
    assert!(server.is_action_allowed_between(same, bob, bob));
}

#[test]
fn vote_goes_to_the_first_proposition_with_the_text() {
    let mut server = sample_server();
    let alice = id_of(&server, "Alice");
    let bob = id_of(&server, "Bob");
    let twin = |votes: Vec<ProfilID>| NickNameProposition {
        author: bob,
        proposition: "X".to_string(),
        votes,
        protected: false,
    };
    server.load_proposition(vec![(bob, vec![twin(vec![]), twin(vec![alice])])]);
    server.vote(alice, bob, "X".to_string());
    let saved = server.try_to_save_nickname().unwrap();
    assert_eq!(saved[0].1[0].votes, vec![alice]);
    assert!(saved[0].1[1].votes.is_empty());
}

#[test]
fn dirty_flags_of_untouched_parts_stay() {
    let mut server = sample_server();
    server.try_to_save_profils();
    let alice = id_of(&server, "Alice");
    let bob = id_of(&server, "Bob");
    server.vote(alice, bob, "Boblet".to_string());
    server.delete(alice, bob, "Nothing".to_string());
    assert!(server.try_to_save_profils().is_none());
    assert!(server.try_to_save_nickname().is_some());
    server.add_profile("Eve".to_string(), "e".to_string()).unwrap();
    server.add_class("D".to_string()).unwrap();
    assert!(server.try_to_save_nickname().is_none());
    assert!(server.try_to_save_profils().is_some());
}
