use nickname_server::commands::{
    reply_text, AddClass, AddLonelyToClass, AddProfil, AddToClass, AppState, ChangeName, ChangePassword,
    ChangePermission, Commands, DeleteClass, DeleteProfil, PermissionKind, RemoveFromClass,
    SaveFormat, ViewPassword,
};
use nickname_server::data_server::permissions::InteractionPermission;
use nickname_server::data_server::serialization::{IdMap, PeopleRepartition};
use nickname_server::data_server::{DataServer, ServerError};

fn state() -> AppState {
    AppState {
        data_server: DataServer::new(PeopleRepartition::default(), IdMap::default()),
        save_format: SaveFormat::Json,
    }
}

fn s(x: &str) -> String {
    x.to_string()
}

#[test]
fn commands_manage_profiles_and_classes() {
    let mut app = state();
    assert_eq!(app.execute_command(Commands::AddProfil(AddProfil { name: s("Ann"), password: s("pw") })), Ok(None));
    assert_eq!(
        app.execute_command(Commands::AddProfil(AddProfil { name: s("Ann"), password: s("x") })),
        Err(ServerError::PersonAlreadyExist)
    );
    assert_eq!(app.execute_command(Commands::AddClass(AddClass { name: s("K") })), Ok(None));
    assert_eq!(
        app.execute_command(Commands::ViewPassword(ViewPassword { name: s("Ann") })),
        Ok(Some(s("Ann password is pw")))
    );
    assert_eq!(
        app.execute_command(Commands::ChangePassword(ChangePassword { name: s("Ann"), new_password: s("q") })),
        Ok(None)
    );
    assert_eq!(
        app.execute_command(Commands::ViewPassword(ViewPassword { name: s("Ann") })),
        Ok(Some(s("Ann password is q")))
    );
    assert_eq!(
        app.execute_command(Commands::ViewLonelyPeople),
        Ok(Some(s("Ann\n")))
    );
    assert_eq!(
        app.execute_command(Commands::AddToClass(AddToClass { profil_name: s("Ann"), class_name: s("K") })),
        Ok(None)
    );
    assert_eq!(
        app.execute_command(Commands::ViewLonelyPeople),
        Ok(Some(s("No people found!\n")))
    );
    assert_eq!(
        app.execute_command(Commands::RemoveFromClass(RemoveFromClass { profil_name: s("Ann"), class_name: s("K") })),
        Ok(None)
    );
    assert_eq!(
        app.execute_command(Commands::ChangeName(ChangeName { name: s("Ann"), new_name: s("Anna") })),
        Ok(None)
    );
    assert_eq!(
        app.execute_command(Commands::ViewPassword(ViewPassword { name: s("Ann") })),
        Err(ServerError::PersonDoesntExist)
    );
    assert_eq!(app.execute_command(Commands::DeleteProfil(DeleteProfil { name: s("Anna") })), Ok(None));
    assert_eq!(app.execute_command(Commands::DeleteClass(DeleteClass { name: s("K") })), Ok(None));
    assert_eq!(
        app.execute_command(Commands::DeleteClass(DeleteClass { name: s("K") })),
        Err(ServerError::ClassDoesntExist)
    );
    assert_eq!(app.execute_command(Commands::Exit), Ok(Some(s("You can't shutdown the server from here"))));
    assert!(app.save_format == SaveFormat::Json);
}

#[test]
fn lonely_people_join_a_class() {
    let mut app = state();
    for name in ["P", "Q"] {
        app.execute_command(Commands::AddProfil(AddProfil { name: s(name), password: s("x") })).unwrap();
    }
    assert_eq!(
        app.execute_command(Commands::AddLonelyPeopleToClass(AddLonelyToClass { class: s("Z") })),
        Err(ServerError::ClassDoesntExist)
    );
    app.execute_command(Commands::AddClass(AddClass { name: s("Z") })).unwrap();
    assert_eq!(
        app.execute_command(Commands::AddLonelyPeopleToClass(AddLonelyToClass { class: s("Z") })),
        Ok(None)
    );
    assert!(app.data_server.find_people_out_of_any_class().is_empty());
    assert_eq!(app.data_server.class_list().classes[0].1.profiles.len(), 2);
}

#[test]
fn permission_command_changes_one_setting() {
    let mut app = state();
    app.execute_command(Commands::AddProfil(AddProfil { name: s("P"), password: s("x") })).unwrap();
    let id = app.data_server.get_profil_id(&s("P")).unwrap();
    assert_eq!(
        app.execute_command(Commands::ChangePerm(ChangePermission {
            name: s("P"),
            kind: PermissionKind::Protect { permission: InteractionPermission::AnyBody },
        })),
        Ok(None)
    );
    app.execute_command(Commands::ChangePerm(ChangePermission {
        name: s("P"),
        kind: PermissionKind::UseCmd { permission: true },
    }))
    .unwrap();
    let p = app.data_server.get_permission(id).unwrap();
    assert_eq!(p.protect_nickname, InteractionPermission::AnyBody);
    assert!(p.allowed_to_use_cmd);
    assert_eq!(p.vote, InteractionPermission::SameClass);
    assert_eq!(
        app.execute_command(Commands::ChangePerm(ChangePermission {
            name: s("Nobody"),
            kind: PermissionKind::Vote { permission: InteractionPermission::Forbidden },
        })),
        Err(ServerError::PersonDoesntExist)
    );
}

#[test]
fn replies_and_command_rights() {
    assert_eq!(reply_text(Ok(None)), "action performed successfully!");
    assert_eq!(reply_text(Ok(Some(s("  Ann\n")))), "Ann");
    assert_eq!(reply_text(Err(ServerError::PersonAlreadyExist)), "This person already exists");
    let mut app = state();
    app.execute_command(Commands::AddProfil(AddProfil { name: s("P"), password: s("x") })).unwrap();
    let id = app.data_server.get_profil_id(&s("P")).unwrap();
    assert!(!app.may_use_commands(id));
    app.execute_command(Commands::ChangePerm(ChangePermission {
        name: s("P"),
        kind: PermissionKind::UseCmd { permission: true },
    }))
    .unwrap();
    assert!(app.may_use_commands(id));
    assert!(!app.may_use_commands(nickname_server::common::ProfilID(77)));
}
