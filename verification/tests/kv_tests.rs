//! Tests of the key/value engine: the set algorithm, numeric operations, and
//! the expiration engine driven with model time (microseconds).
use bonsaidb::database::Database;
use bonsaidb::error::Error;
use bonsaidb::kv::{
    full_key, increment, Command, KeyCheck, KeyOperation, KeyStatus, KeyValueStore, Numeric,
    Output, Timestamp, Value,
};

fn ts(micros: u64) -> Timestamp {
    Timestamp { micros }
}

fn key(s: &str) -> String {
    String::from(s)
}

fn assert_status(output: &Output, expected: KeyStatus) {
    match output {
        Output::Status(s) => assert_eq!(*s, expected),
        Output::Value(_) => panic!("expected a status output"),
    }
}

fn unsigned_value(output: &Output) -> u64 {
    match output {
        Output::Value(Some(Value::Numeric(Numeric::UnsignedInteger(v)))) => *v,
        _ => panic!("expected an unsigned numeric value"),
    }
}

#[test]
fn full_key_concatenates_namespace_and_key() {
    assert_eq!(full_key(Some(key("atree")), key("akey")), "atree.akey");
    assert_eq!(full_key(None, key("akey")), ".akey");
}

#[test]
fn set_and_get_round_trip() {
    let mut store = KeyValueStore::new();
    let out = store.set(&key("a.k"), Value::Bytes(b"v1".to_vec()), None, false, None, false);
    assert_status(&out, KeyStatus::Inserted);
    match store.get(&key("a.k")) {
        Some(Value::Bytes(b)) => assert_eq!(b, b"v1".to_vec()),
        _ => panic!("expected the stored bytes"),
    }
    let out = store.set(&key("a.k"), Value::Bytes(b"v2".to_vec()), None, false, None, false);
    assert_status(&out, KeyStatus::Updated);
    assert!(store.get(&key("missing")).is_none());
}

#[test]
fn set_honors_presence_checks() {
    let mut store = KeyValueStore::new();
    let out = store.set(
        &key("k"),
        Value::Bytes(b"v".to_vec()),
        None,
        false,
        Some(KeyCheck::OnlyIfPresent),
        false,
    );
    assert_status(&out, KeyStatus::NotChanged);
    assert!(store.get(&key("k")).is_none());

    let out = store.set(
        &key("k"),
        Value::Bytes(b"v".to_vec()),
        None,
        false,
        Some(KeyCheck::OnlyIfVacant),
        false,
    );
    assert_status(&out, KeyStatus::Inserted);

    let out = store.set(
        &key("k"),
        Value::Bytes(b"w".to_vec()),
        None,
        false,
        Some(KeyCheck::OnlyIfVacant),
        false,
    );
    assert_status(&out, KeyStatus::NotChanged);
    match store.get(&key("k")) {
        Some(Value::Bytes(b)) => assert_eq!(b, b"v".to_vec()),
        _ => panic!("the vacant check must not overwrite"),
    }
}

#[test]
fn set_returns_the_previous_value_when_asked() {
    let mut store = KeyValueStore::new();
    let out = store.set(&key("k"), Value::Bytes(b"v1".to_vec()), None, false, None, true);
    match out {
        Output::Value(None) => {},
        _ => panic!("a fresh key has no previous value"),
    }
    let out = store.set(&key("k"), Value::Bytes(b"v2".to_vec()), None, false, None, true);
    match out {
        Output::Value(Some(Value::Bytes(b))) => assert_eq!(b, b"v1".to_vec()),
        _ => panic!("expected the previous value"),
    }
}

#[test]
fn set_keeps_the_existing_expiration_when_asked() {
    let mut store = KeyValueStore::new();
    store.set(&key("k"), Value::Bytes(b"v1".to_vec()), Some(ts(500)), false, None, false);
    store.set(&key("k"), Value::Bytes(b"v2".to_vec()), None, true, None, false);
    assert_eq!(store.get_expiration(&key("k")), Some(ts(500)));
    store.set(&key("k"), Value::Bytes(b"v3".to_vec()), Some(ts(900)), false, None, false);
    assert_eq!(store.get_expiration(&key("k")), Some(ts(900)));
}

#[test]
fn delete_reports_what_happened() {
    let mut store = KeyValueStore::new();
    store.set(&key("k"), Value::Bytes(b"v".to_vec()), None, false, None, false);
    assert_status(&store.delete(&key("k")), KeyStatus::Deleted);
    assert_status(&store.delete(&key("k")), KeyStatus::NotChanged);
}

#[test]
fn increment_treats_a_missing_entry_as_zero() {
    let mut store = KeyValueStore::new();
    let v = store.increment_key(&key("x"), &Numeric::UnsignedInteger(5), false).unwrap();
    match v {
        Value::Numeric(Numeric::UnsignedInteger(5)) => {},
        _ => panic!("expected five"),
    }
}

#[test]
fn increment_on_bytes_is_a_typed_error() {
    let mut store = KeyValueStore::new();
    store.set(&key("x"), Value::Bytes(b"v".to_vec()), None, false, None, false);
    assert!(matches!(
        store.increment_key(&key("x"), &Numeric::UnsignedInteger(1), false),
        Err(Error::Database(_))
    ));
}

#[test]
fn numeric_saturating_and_wrapping() {
    // Unsigned saturation at the top, wrapping past it.
    assert_eq!(
        increment(&Numeric::UnsignedInteger(u64::MAX), &Numeric::UnsignedInteger(1), true),
        Numeric::UnsignedInteger(u64::MAX)
    );
    assert_eq!(
        increment(&Numeric::UnsignedInteger(u64::MAX), &Numeric::UnsignedInteger(1), false),
        Numeric::UnsignedInteger(0)
    );
    // Signed saturation widens to the amount's variant.
    assert_eq!(
        increment(&Numeric::Integer(i64::MAX), &Numeric::Integer(1), true),
        Numeric::Integer(i64::MAX)
    );
    assert_eq!(
        increment(&Numeric::Integer(i64::MAX), &Numeric::Integer(1), false),
        Numeric::Integer(i64::MIN)
    );
    // A negative value clamps to zero when widened to unsigned, saturating.
    assert_eq!(
        increment(&Numeric::Integer(-5), &Numeric::UnsignedInteger(2), true),
        Numeric::UnsignedInteger(2)
    );
}

#[test]
fn decrement_mirrors_increment() {
    let mut store = KeyValueStore::new();
    store
        .set(
            &key("x"),
            Value::Numeric(Numeric::UnsignedInteger(10)),
            None,
            false,
            None,
            false,
        );
    let v = store.decrement_key(&key("x"), &Numeric::UnsignedInteger(3), false).unwrap();
    match v {
        Value::Numeric(Numeric::UnsignedInteger(7)) => {},
        _ => panic!("expected seven"),
    }
    // Saturating at zero.
    let v = store.decrement_key(&key("x"), &Numeric::UnsignedInteger(100), true).unwrap();
    match v {
        Value::Numeric(Numeric::UnsignedInteger(0)) => {},
        _ => panic!("expected zero"),
    }
}

#[test]
fn concurrent_increments_total_one_hundred() {
    // One hundred increments of one, in some serial order, total one hundred.
    let mut db = Database::new(key("db"), key("S"));
    for _ in 0..100 {
        let out = db
            .execute_key_operation(KeyOperation {
                namespace: None,
                key: key("x"),
                command: Command::Increment {
                    amount: Numeric::UnsignedInteger(1),
                    saturating: false,
                },
            })
            .unwrap();
        let _ = unsigned_value(&out);
    }
    let out = db
        .execute_key_operation(KeyOperation {
            namespace: None,
            key: key("x"),
            command: Command::Get { delete: false },
        })
        .unwrap();
    assert_eq!(unsigned_value(&out), 100);
}

#[test]
fn basic_expiration() {
    let mut db = Database::new(key("kv-basic-expiration"), key("S"));
    db.execute_key_operation(KeyOperation {
        namespace: Some(key("atree")),
        key: key("akey"),
        command: Command::SetValue {
            value: Value::Bytes(b"somevalue".to_vec()),
            expiration: Some(ts(100_000)),
            keep_existing_expiration: false,
            check: None,
            return_previous_value: false,
        },
    })
    .unwrap();
    db.sweep_expired(ts(1_000_000));
    let out = db
        .execute_key_operation(KeyOperation {
            namespace: Some(key("atree")),
            key: key("akey"),
            command: Command::Get { delete: false },
        })
        .unwrap();
    assert!(matches!(out, Output::Value(None)));
}

#[test]
fn updating_expiration() {
    let mut db = Database::new(key("kv-updating-expiration"), key("S"));
    db.execute_key_operation(KeyOperation {
        namespace: Some(key("atree")),
        key: key("akey"),
        command: Command::SetValue {
            value: Value::Bytes(b"somevalue".to_vec()),
            expiration: Some(ts(100_000)),
            keep_existing_expiration: false,
            check: None,
            return_previous_value: false,
        },
    })
    .unwrap();
    // Pushing the deadline out by re-setting with a later expiration.
    db.execute_key_operation(KeyOperation {
        namespace: Some(key("atree")),
        key: key("akey"),
        command: Command::SetValue {
            value: Value::Bytes(b"somevalue".to_vec()),
            expiration: Some(ts(1_000_000)),
            keep_existing_expiration: false,
            check: None,
            return_previous_value: false,
        },
    })
    .unwrap();
    db.sweep_expired(ts(500_000));
    let out = db
        .execute_key_operation(KeyOperation {
            namespace: Some(key("atree")),
            key: key("akey"),
            command: Command::Get { delete: false },
        })
        .unwrap();
    assert!(matches!(out, Output::Value(Some(_))));
    db.sweep_expired(ts(1_500_000));
    let out = db
        .execute_key_operation(KeyOperation {
            namespace: Some(key("atree")),
            key: key("akey"),
            command: Command::Get { delete: false },
        })
        .unwrap();
    assert!(matches!(out, Output::Value(None)));
}

#[test]
fn multiple_keys_expiration() {
    let mut db = Database::new(key("kv-multiple-keys-expiration"), key("S"));
    for (k, deadline) in [("akey", 100_000u64), ("bkey", 1_000_000)] {
        db.execute_key_operation(KeyOperation {
            namespace: Some(key("atree")),
            key: key(k),
            command: Command::SetValue {
                value: Value::Bytes(b"somevalue".to_vec()),
                expiration: Some(ts(deadline)),
                keep_existing_expiration: false,
                check: None,
                return_previous_value: false,
            },
        })
        .unwrap();
    }
    db.sweep_expired(ts(200_000));
    let a = db
        .execute_key_operation(KeyOperation {
            namespace: Some(key("atree")),
            key: key("akey"),
            command: Command::Get { delete: false },
        })
        .unwrap();
    let b = db
        .execute_key_operation(KeyOperation {
            namespace: Some(key("atree")),
            key: key("bkey"),
            command: Command::Get { delete: false },
        })
        .unwrap();
    assert!(matches!(a, Output::Value(None)));
    assert!(matches!(b, Output::Value(Some(_))));
    db.sweep_expired(ts(1_100_000));
    let b = db
        .execute_key_operation(KeyOperation {
            namespace: Some(key("atree")),
            key: key("bkey"),
            command: Command::Get { delete: false },
        })
        .unwrap();
    assert!(matches!(b, Output::Value(None)));
}

#[test]
fn clearing_expiration() {
    let mut db = Database::new(key("kv-clearing-expiration"), key("S"));
    db.execute_key_operation(KeyOperation {
        namespace: Some(key("atree")),
        key: key("akey"),
        command: Command::SetValue {
            value: Value::Bytes(b"somevalue".to_vec()),
            expiration: Some(ts(100_000)),
            keep_existing_expiration: false,
            check: None,
            return_previous_value: false,
        },
    })
    .unwrap();
    // Clearing the expiration: the entry is never removed by the expirer.
    db.execute_key_operation(KeyOperation {
        namespace: Some(key("atree")),
        key: key("akey"),
        command: Command::SetValue {
            value: Value::Bytes(b"somevalue".to_vec()),
            expiration: None,
            keep_existing_expiration: false,
            check: None,
            return_previous_value: false,
        },
    })
    .unwrap();
    db.sweep_expired(ts(150_000));
    let out = db
        .execute_key_operation(KeyOperation {
            namespace: Some(key("atree")),
            key: key("akey"),
            command: Command::Get { delete: false },
        })
        .unwrap();
    assert!(matches!(out, Output::Value(Some(_))));
}

#[test]
fn out_of_order_expiration() {
    let mut db = Database::new(key("kv-out-of-order-expiration"), key("S"));
    for (k, deadline) in [
        ("akey", 3_000_000u64),
        ("ckey", 1_000_000),
        ("bkey", 2_000_000),
    ] {
        db.execute_key_operation(KeyOperation {
            namespace: Some(key("atree")),
            key: key(k),
            command: Command::SetValue {
                value: Value::Bytes(b"somevalue".to_vec()),
                expiration: Some(ts(deadline)),
                keep_existing_expiration: false,
                check: None,
                return_previous_value: false,
            },
        })
        .unwrap();
    }
    let present = |db: &mut Database, k: &str| -> bool {
        let out = db
            .execute_key_operation(KeyOperation {
                namespace: Some(key("atree")),
                key: key(k),
                command: Command::Get { delete: false },
            })
            .unwrap();
        matches!(out, Output::Value(Some(_)))
    };
    db.sweep_expired(ts(1_200_000));
    assert!(present(&mut db, "akey"));
    assert!(present(&mut db, "bkey"));
    assert!(!present(&mut db, "ckey"));
    db.sweep_expired(ts(2_200_000));
    assert!(present(&mut db, "akey"));
    assert!(!present(&mut db, "bkey"));
    db.sweep_expired(ts(3_200_000));
    assert!(!present(&mut db, "akey"));
}

#[test]
fn get_with_delete_removes_the_entry() {
    let mut db = Database::new(key("db"), key("S"));
    db.execute_key_operation(KeyOperation {
        namespace: None,
        key: key("k"),
        command: Command::SetValue {
            value: Value::Bytes(b"v".to_vec()),
            expiration: Some(ts(100)),
            keep_existing_expiration: false,
            check: None,
            return_previous_value: false,
        },
    })
    .unwrap();
    let out = db
        .execute_key_operation(KeyOperation {
            namespace: None,
            key: key("k"),
            command: Command::Get { delete: true },
        })
        .unwrap();
    assert!(matches!(out, Output::Value(Some(_))));
    let out = db
        .execute_key_operation(KeyOperation {
            namespace: None,
            key: key("k"),
            command: Command::Get { delete: false },
        })
        .unwrap();
    assert!(matches!(out, Output::Value(None)));
}
