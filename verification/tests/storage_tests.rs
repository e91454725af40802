//! Tests of the storage core: name validation, instance identity, the
//! database and schema registries, permissions, users and sessions.
use bonsaidb::error::Error;
use bonsaidb::pubsub::Relay;
use bonsaidb::storage::{
    format_server_id, lookup_or_create_id, parse_server_id, validate_name, Permissions, Storage,
    StorageId,
};

#[test]
fn name_validation_tests() {
    assert!(matches!(validate_name("azAZ09.-"), Ok(())));
    assert!(matches!(validate_name("_internal-names-work"), Ok(())));
    assert!(matches!(
        validate_name("-alphaunmericfirstrequired"),
        Err(Error::InvalidDatabaseName(_))
    ));
    assert!(matches!(
        validate_name("\u{2661}"),
        Err(Error::InvalidDatabaseName(_))
    ));
}

#[test]
fn empty_names_are_invalid() {
    assert!(matches!(validate_name(""), Err(Error::InvalidDatabaseName(_))));
}

#[test]
fn underscore_only_leads() {
    assert!(matches!(validate_name("a_b"), Err(Error::InvalidDatabaseName(_))));
    assert!(matches!(validate_name("_ab"), Ok(())));
    assert!(matches!(validate_name(".ab"), Err(Error::InvalidDatabaseName(_))));
}

#[test]
fn server_id_round_trip() {
    for id in [0u64, 1, 9, 10, 1234567890123456789, u64::MAX] {
        let bytes = format_server_id(id);
        assert_eq!(parse_server_id(&bytes), Some(id));
    }
}

#[test]
fn server_id_rejects_corrupt_files() {
    assert_eq!(parse_server_id(b""), None);
    assert_eq!(parse_server_id(b"12a4"), None);
    assert_eq!(parse_server_id(b" 124"), None);
    // One past u64::MAX.
    assert_eq!(parse_server_id(b"18446744073709551616"), None);
    assert_eq!(parse_server_id(b"18446744073709551615"), Some(u64::MAX));
}

#[test]
fn configured_id_wins_and_is_not_persisted() {
    let outcome = lookup_or_create_id(Some(7), Some(&b"1234".to_vec())).unwrap();
    assert_eq!(outcome.id.as_u64(), 7);
    assert!(outcome.file_to_write.is_none());
}

#[test]
fn persisted_id_is_parsed() {
    let outcome = lookup_or_create_id(None, Some(&b"1234".to_vec())).unwrap();
    assert_eq!(outcome.id.as_u64(), 1234);
    assert!(outcome.file_to_write.is_none());
}

#[test]
fn corrupt_server_id_aborts_open() {
    assert!(matches!(
        lookup_or_create_id(None, Some(&b"not-a-number".to_vec())),
        Err(Error::Configuration(_))
    ));
    assert!(matches!(
        Storage::open(String::from("tmp"), None, Some(&b"not-a-number".to_vec())),
        Err(Error::Configuration(_))
    ));
}

#[test]
fn fresh_id_is_drawn_and_persisted() {
    let outcome = lookup_or_create_id(None, None).unwrap();
    let file = outcome.file_to_write.expect("a fresh id must be persisted");
    assert_eq!(parse_server_id(&file), Some(outcome.id.as_u64()));
}

#[test]
fn storage_id_as_u64() {
    assert_eq!(StorageId(42).as_u64(), 42);
}

#[test]
fn open_registers_the_admin_database() {
    let (storage, _) = Storage::open(String::from("tmp"), Some(1), None).unwrap();
    let databases = storage.list_databases();
    assert!(databases
        .iter()
        .any(|(name, schema)| name == "_admin" && schema == "admin"));
}

#[test]
fn create_list_and_reopen_databases() {
    let (mut storage, _) = Storage::open(String::from("tmp"), Some(1), None).unwrap();
    storage.register_schema(String::from("S")).unwrap();
    storage
        .create_database_with_schema("b1", String::from("S"), false)
        .unwrap();

    let databases = storage.list_databases();
    assert!(databases.iter().any(|(name, schema)| name == "b1" && schema == "S"));
    assert_eq!(databases.len(), 2);

    // Reopening rebuilds the registry from the admin collection's records.
    let (mut reopened, _) = Storage::open(String::from("tmp"), Some(1), None).unwrap();
    reopened.register_schema(String::from("S")).unwrap();
    reopened.cache_available_databases(databases);
    let rebuilt = reopened.list_databases();
    assert!(rebuilt.iter().any(|(name, schema)| name == "b1" && schema == "S"));
    assert!(rebuilt.iter().any(|(name, _)| name == "_admin"));
}

#[test]
fn create_database_errors() {
    let (mut storage, _) = Storage::open(String::from("tmp"), Some(1), None).unwrap();
    assert!(matches!(
        storage.create_database_with_schema("-bad", String::from("S"), false),
        Err(Error::InvalidDatabaseName(_))
    ));
    assert!(matches!(
        storage.create_database_with_schema("ok", String::from("S"), false),
        Err(Error::SchemaNotRegistered(_))
    ));
    storage.register_schema(String::from("S")).unwrap();
    storage
        .create_database_with_schema("ok", String::from("S"), false)
        .unwrap();
    assert!(matches!(
        storage.create_database_with_schema("ok", String::from("S"), false),
        Err(Error::DatabaseNameAlreadyTaken(_))
    ));
    assert!(matches!(
        storage.create_database_with_schema("ok", String::from("S"), true),
        Ok(())
    ));
    assert_eq!(storage.list_databases().len(), 2);
}

#[test]
fn database_names_fold_ascii_case() {
    let (mut storage, _) = Storage::open(String::from("tmp"), Some(1), None).unwrap();
    storage.register_schema(String::from("S")).unwrap();
    storage
        .create_database_with_schema("b1", String::from("S"), false)
        .unwrap();
    // The name-taken check goes by the ASCII-lowercased name.
    assert!(matches!(
        storage.create_database_with_schema("B1", String::from("S"), false),
        Err(Error::DatabaseNameAlreadyTaken(_))
    ));
    assert!(matches!(
        storage.create_database_with_schema("B1", String::from("S"), true),
        Ok(())
    ));
    assert!(storage.check_database_schema("B1", &String::from("S")).is_ok());
    // Deleting under another casing removes the record.
    storage.delete_database("B1").unwrap();
    assert!(matches!(storage.delete_database("b1"), Err(Error::DatabaseNotFound(_))));
}

#[test]
fn schema_registration_is_unique() {
    let (mut storage, _) = Storage::open(String::from("tmp"), Some(1), None).unwrap();
    storage.register_schema(String::from("S")).unwrap();
    assert!(matches!(
        storage.register_schema(String::from("S")),
        Err(Error::SchemaAlreadyRegistered(_))
    ));
}

#[test]
fn delete_database() {
    let (mut storage, _) = Storage::open(String::from("tmp"), Some(1), None).unwrap();
    storage.register_schema(String::from("S")).unwrap();
    storage
        .create_database_with_schema("b1", String::from("S"), false)
        .unwrap();
    storage.delete_database("b1").unwrap();
    assert!(matches!(storage.delete_database("b1"), Err(Error::DatabaseNotFound(_))));
    assert_eq!(storage.list_databases().len(), 1);
}

#[test]
fn schema_mismatch_is_reported() {
    let (mut storage, _) = Storage::open(String::from("tmp"), Some(1), None).unwrap();
    storage.register_schema(String::from("S")).unwrap();
    storage
        .create_database_with_schema("b1", String::from("S"), false)
        .unwrap();
    assert!(matches!(
        storage.check_database_schema("b1", &String::from("S")),
        Ok(())
    ));
    assert!(matches!(
        storage.check_database_schema("b1", &String::from("T")),
        Err(Error::SchemaMismatch { .. })
    ));
    assert!(matches!(
        storage.check_database_schema("missing", &String::from("S")),
        Err(Error::DatabaseNotFound(_))
    ));
}

#[test]
fn available_schemas_are_distinct() {
    let (mut storage, _) = Storage::open(String::from("tmp"), Some(1), None).unwrap();
    storage.register_schema(String::from("S")).unwrap();
    storage
        .create_database_with_schema("b1", String::from("S"), false)
        .unwrap();
    storage
        .create_database_with_schema("b2", String::from("S"), false)
        .unwrap();
    let schemas = storage.list_available_schemas();
    assert_eq!(schemas.len(), 2);
    assert!(schemas.iter().any(|s| s == "admin"));
    assert!(schemas.iter().any(|s| s == "S"));
}

#[test]
fn users_groups_and_roles() {
    let (mut storage, _) = Storage::open(String::from("tmp"), Some(1), None).unwrap();
    let alice = storage.create_user(String::from("alice"));
    let bob = storage.create_user(String::from("bob"));
    assert_ne!(alice, bob);

    storage.add_permission_group_to_user(alice, 10).unwrap();
    storage.add_permission_group_to_user(alice, 10).unwrap();
    storage.add_role_to_user(alice, 20).unwrap();
    storage.remove_role_from_user(alice, 20).unwrap();
    storage.remove_permission_group_from_user(alice, 10).unwrap();
    assert!(matches!(
        storage.add_permission_group_to_user(999, 10),
        Err(Error::UserNotFound)
    ));

    storage.delete_user(bob).unwrap();
    assert!(matches!(storage.delete_user(bob), Err(Error::UserNotFound)));
}

#[test]
fn authentication_needs_a_verified_password() {
    let (mut storage, _) = Storage::open(String::from("tmp"), Some(1), None).unwrap();
    let alice = storage.create_user(String::from("alice"));

    // No stored hash: even a "verified" password cannot authenticate.
    assert!(matches!(
        storage.authenticate(alice, true, Permissions::allow_all()),
        Err(Error::InvalidCredentials)
    ));

    storage.set_user_password(alice, b"argon2-hash-bytes".to_vec()).unwrap();
    assert!(matches!(
        storage.authenticate(alice, false, Permissions::allow_all()),
        Err(Error::InvalidCredentials)
    ));
    assert!(matches!(
        storage.authenticate(999, true, Permissions::allow_all()),
        Err(Error::InvalidCredentials)
    ));

    let session = storage.authenticate(alice, true, Permissions::allow_all()).unwrap();
    assert_eq!(session.user_id, alice);
    assert_eq!(session.username, "alice");
    assert!(session.permissions.allows("server.create-database"));
    let second = storage.assume_user(alice, Permissions::allow_all()).unwrap();
    assert!(second.id > session.id);
    assert!(matches!(
        storage.assume_user(999, Permissions::allow_all()),
        Err(Error::InvalidCredentials)
    ));
}

#[test]
fn sessions_carry_identity_and_permissions() {
    let (mut storage, _) = Storage::open(String::from("tmp"), Some(1), None).unwrap();
    let bob = storage.create_user(String::from("bob"));
    let limited = Permissions::allowing(vec![String::from("server.list-databases")]);
    let session = storage.assume_user(bob, limited).unwrap();
    assert_eq!(session.username, "bob");
    assert!(session.permissions.check_permission("server.list-databases").is_ok());
    assert!(matches!(
        session.permissions.check_permission("server.delete-database"),
        Err(Error::PermissionDenied)
    ));
}

#[test]
fn session_drop_purges_its_subscribers() {
    let (mut storage, _) = Storage::open(String::from("tmp"), Some(1), None).unwrap();
    let alice = storage.create_user(String::from("alice"));
    let session = storage.assume_user(alice, Permissions::allow_all()).unwrap();

    let mut relay = Relay::new();
    let owned = relay.create_subscriber(Some(session.id));
    let other = relay.create_subscriber(None);
    relay.subscribe_to(owned, String::from("a"));
    relay.subscribe_to(other, String::from("a"));

    storage.end_session(session.id, &mut relay);

    relay.publish(&String::from("a"), b"m1");
    assert_eq!(relay.take_messages(owned).len(), 0);
    assert_eq!(relay.take_messages(other).len(), 1);
}

#[test]
fn permission_checks_gate_actions() {
    let everything = Permissions::allow_all();
    assert!(everything.check_permission("server.create-database").is_ok());

    let limited = Permissions::allowing(vec![String::from("server.list-databases")]);
    assert!(limited.check_permission("server.list-databases").is_ok());
    assert!(matches!(
        limited.check_permission("server.create-database"),
        Err(Error::PermissionDenied)
    ));
}
