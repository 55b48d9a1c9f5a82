use mvcc::types::IsolationLevel;
use mvcc::{create_con, create_db, create_db_uncomitted, create_open_con};

#[test]
fn test_read_uncommitted() {
    let mut db = create_db_uncomitted();
    let mut con1 = create_con();
    let mut con2 = create_con();

    con1.must_exec_command(&mut db, "begin", &[]);
    con2.must_exec_command(&mut db, "begin", &[]);

    con1.must_exec_command(&mut db, "set", &["x", "hey"]);

    assert_eq!(&con1.must_exec_command(&mut db, "get", &["x"]), "hey");
    assert_eq!(&con2.must_exec_command(&mut db, "get", &["x"]), "hey");

    con1.must_exec_command(&mut db, "delete", &["x"]);

    assert!(con1.exec_command(&mut db, "get", &["x"]).is_err());
    assert!(con2.exec_command(&mut db, "get", &["x"]).is_err());
}

#[test]
fn test_read_committed() {
    let mut db = create_db(IsolationLevel::ReadCommitted);
    let mut con1 = create_con();
    let mut con2 = create_con();

    con1.must_exec_command(&mut db, "begin", &[]);
    con2.must_exec_command(&mut db, "begin", &[]);

    con1.must_exec_command(&mut db, "set", &["x", "hey"]);

    assert_eq!(&con1.must_exec_command(&mut db, "get", &["x"]), "hey");
    assert!(con2.exec_command(&mut db, "get", &["x"]).is_err());

    con1.must_exec_command(&mut db, "commit", &[]);

    assert_eq!(&con2.must_exec_command(&mut db, "get", &["x"]), "hey");

    let mut con3 = create_con();
    con3.must_exec_command(&mut db, "begin", &[]);
    con3.must_exec_command(&mut db, "set", &["x", "other value"]);

    assert_eq!(&con3.must_exec_command(&mut db, "get", &["x"]), "other value");
    assert_eq!(&con2.must_exec_command(&mut db, "get", &["x"]), "hey");

    con3.must_exec_command(&mut db, "abort", &[]);

    assert_eq!(&con2.must_exec_command(&mut db, "get", &["x"]), "hey");

    con2.must_exec_command(&mut db, "delete", &["x"]);
    assert!(con2.exec_command(&mut db, "get", &["x"]).is_err());

    con2.must_exec_command(&mut db, "commit", &[]);

    let mut con4 = create_con();
    con4.must_exec_command(&mut db, "begin", &[]);
    assert!(con4.exec_command(&mut db, "get", &["x"]).is_err());
}

#[test]
fn test_read_repeatable() {
    let mut db = create_db(IsolationLevel::RepeatableRead);
    let mut con1 = create_open_con(&mut db);
    let mut con2 = create_open_con(&mut db);

    // A local change is visible locally.
    con1.must_exec_command(&mut db, "set", &["x", "hey"]);
    assert_eq!(con1.must_exec_command(&mut db, "get", &["x"]), "hey");

    // Not visible to another transaction while uncommitted.
    assert!(con2.exec_command(&mut db, "get", &["x"]).is_err());

    con1.must_exec_command(&mut db, "commit", &[]);

    // Still not visible to a transaction that began before the commit.
    assert!(con2.exec_command(&mut db, "get", &["x"]).is_err());

    let mut con3 = create_open_con(&mut db);
    assert_eq!(con3.must_exec_command(&mut db, "get", &["x"]), "hey");

    con3.must_exec_command(&mut db, "set", &["x", "yall"]);
    assert_eq!(con3.must_exec_command(&mut db, "get", &["x"]), "yall");

    assert!(con2.exec_command(&mut db, "get", &["x"]).is_err());

    con3.must_exec_command(&mut db, "abort", &[]);

    let mut con4 = create_open_con(&mut db);
    con4.must_exec_command(&mut db, "delete", &["x"]);
    con4.must_exec_command(&mut db, "commit", &[]);

    let mut con5 = create_open_con(&mut db);
    assert!(con5.exec_command(&mut db, "get", &["x"]).is_err());
}

#[test]
fn test_snapshot_isolation_writewrite_conflict() {
    let mut db = create_db(IsolationLevel::Snapshot);
    let mut con1 = create_open_con(&mut db);
    let mut con2 = create_open_con(&mut db);
    let mut con3 = create_open_con(&mut db);

    con1.must_exec_command(&mut db, "set", &["x", "hey"]);
    con1.must_exec_command(&mut db, "commit", &["con1"]);

    con2.must_exec_command(&mut db, "set", &["x", "hey"]);

    let res = con2.exec_command(&mut db, "commit", &[]);
    assert_eq!(res, Err("write-write conflict".to_string()));

    // Unrelated keys cause no conflict.
    con3.must_exec_command(&mut db, "set", &["y", "no conflict"]);
    con3.must_exec_command(&mut db, "commit", &["con3"]);
}

#[test]
fn test_serialization_isolation_writewrite_conflict() {
    let mut db = create_db(IsolationLevel::Serializable);
    let mut con1 = create_open_con(&mut db);
    let mut con2 = create_open_con(&mut db);
    let mut con3 = create_open_con(&mut db);

    con1.must_exec_command(&mut db, "set", &["x", "hey"]);
    con1.must_exec_command(&mut db, "commit", &["con1"]);

    assert!(con2.exec_command(&mut db, "get", &["x"]).is_err());

    let res = con2.exec_command(&mut db, "commit", &[]);
    assert_eq!(res, Err("read-write conflict".to_string()));

    // Unrelated keys cause no conflict.
    con3.must_exec_command(&mut db, "set", &["y", "no conflict"]);
    con3.must_exec_command(&mut db, "commit", &["con3"]);
}
