use mvcc::connection::Connection;
use mvcc::db::Database;
use mvcc::types::{IsolationLevel, Transaction, TransactionState, Value};
use mvcc::{create_con, create_db, create_open_con};

const LEVELS: [IsolationLevel; 5] = [
    IsolationLevel::ReadUncommitted,
    IsolationLevel::ReadCommitted,
    IsolationLevel::RepeatableRead,
    IsolationLevel::Snapshot,
    IsolationLevel::Serializable,
];

#[test]
fn begin_replies_with_increasing_ids() {
    let mut db = Database::new(IsolationLevel::Snapshot);
    for n in 1..=12u64 {
        let mut con = Connection::new();
        let reply = con.must_exec_command(&mut db, "begin", &[]);
        assert_eq!(reply, format!("transaction {}", n));
        assert_eq!(con.transaction_id(), Some(n));
    }
    assert_eq!(db.new_transaction(), 13);
}

#[test]
fn in_progress_lists_open_transactions_in_order() {
    let mut db = create_db(IsolationLevel::ReadCommitted);
    let a = db.new_transaction();
    let b = db.new_transaction();
    let c = db.new_transaction();
    assert_eq!(db.in_progress(), vec![a, b, c]);
    assert_eq!(db.complete(b, TransactionState::Committed), Ok(()));
    assert_eq!(db.in_progress(), vec![a, c]);
    assert_eq!(db.complete(a, TransactionState::Aborted), Ok(()));
    assert_eq!(db.in_progress(), vec![c]);
}

#[test]
fn read_own_write_at_every_level() {
    for level in LEVELS {
        let mut db = create_db(level);
        let other = db.new_transaction();
        db.set(other, "k", "theirs");
        let t = db.new_transaction();
        db.set(t, "k", "v1");
        assert_eq!(db.get(t, "k"), Some("v1".to_string()));
        db.set(t, "k", "v2");
        assert_eq!(db.get(t, "k"), Some("v2".to_string()));
    }
}

#[test]
fn read_after_own_delete_at_every_level() {
    for level in LEVELS {
        let mut db = create_db(level);
        let t0 = db.new_transaction();
        db.set(t0, "k", "old");
        assert_eq!(db.complete(t0, TransactionState::Committed), Ok(()));
        let t = db.new_transaction();
        assert_eq!(db.get(t, "k"), Some("old".to_string()));
        db.delete(t, "k");
        assert_eq!(db.get(t, "k"), None);
    }
}

#[test]
fn repeated_get_gives_same_result() {
    let mut db = create_db(IsolationLevel::RepeatableRead);
    let t1 = db.new_transaction();
    db.set(t1, "k", "v");
    let first = db.get(t1, "k");
    let second = db.get(t1, "k");
    assert_eq!(first, second);
    assert_eq!(first, Some("v".to_string()));
}

#[test]
fn abort_clears_the_connection() {
    let mut db = create_db(IsolationLevel::ReadCommitted);
    let mut con = create_open_con(&mut db);
    assert_eq!(con.transaction_id(), Some(1));
    assert_eq!(con.must_exec_command(&mut db, "abort", &[]), "aborted");
    assert_eq!(con.transaction_id(), None);
    assert_eq!(con.must_exec_command(&mut db, "begin", &[]), "transaction 2");
    assert_eq!(con.must_exec_command(&mut db, "set", &["a", "b"]), "value set");
    assert_eq!(con.must_exec_command(&mut db, "commit", &[]), "committed");
}

#[test]
fn delete_then_overwrite_chain() {
    let mut db = create_db(IsolationLevel::ReadCommitted);
    let mut c1 = create_open_con(&mut db);
    c1.must_exec_command(&mut db, "set", &["k", "a"]);
    c1.must_exec_command(&mut db, "commit", &[]);
    let mut c2 = create_open_con(&mut db);
    assert_eq!(c2.must_exec_command(&mut db, "delete", &["k"]), "value deleted");
    c2.must_exec_command(&mut db, "commit", &[]);
    let mut c3 = create_open_con(&mut db);
    assert_eq!(
        c3.exec_command(&mut db, "get", &["k"]),
        Err("key k not found".to_string())
    );
    let mut c4 = create_open_con(&mut db);
    c4.must_exec_command(&mut db, "set", &["k", "b"]);
    c4.must_exec_command(&mut db, "commit", &[]);
    let mut c5 = create_open_con(&mut db);
    assert_eq!(c5.must_exec_command(&mut db, "get", &["k"]), "b");
    assert_eq!(db.chain_len("k"), 2);
}

#[test]
fn unknown_command_is_reported() {
    let mut db = create_db(IsolationLevel::ReadCommitted);
    let mut con = create_con();
    assert_eq!(
        con.exec_command(&mut db, "drop", &["x"]),
        Err("unknown command `drop`".to_string())
    );
    assert_eq!(con.transaction_id(), None);
}

#[test]
fn complete_refuses_unknown_and_finished_transactions() {
    let mut db = create_db(IsolationLevel::Snapshot);
    assert_eq!(
        db.complete(7, TransactionState::Aborted),
        Err("transaction 7 not found".to_string())
    );
    let t = db.new_transaction();
    assert_eq!(db.complete(t, TransactionState::Committed), Ok(()));
    assert_eq!(
        db.complete(t, TransactionState::Aborted),
        Err("transaction 1 is not in progress".to_string())
    );
    assert_eq!(db.in_progress(), Vec::<u64>::new());
}

#[test]
fn failed_commit_leaves_transaction_aborted() {
    let mut db = create_db(IsolationLevel::Snapshot);
    let t1 = db.new_transaction();
    let t2 = db.new_transaction();
    db.set(t1, "x", "1");
    db.set(t2, "x", "2");
    assert_eq!(db.complete(t1, TransactionState::Committed), Ok(()));
    assert_eq!(
        db.complete(t2, TransactionState::Committed),
        Err("write-write conflict".to_string())
    );
    assert_eq!(
        db.complete(t2, TransactionState::Committed),
        Err("transaction 2 is not in progress".to_string())
    );
    let t3 = db.new_transaction();
    assert_eq!(db.get(t3, "x"), Some("1".to_string()));
}

#[test]
fn serializable_write_after_peer_read_conflicts() {
    let mut db = create_db(IsolationLevel::Serializable);
    let t1 = db.new_transaction();
    let t2 = db.new_transaction();
    assert_eq!(db.get(t1, "x"), None);
    assert_eq!(db.complete(t1, TransactionState::Committed), Ok(()));
    db.set(t2, "x", "v");
    assert_eq!(
        db.complete(t2, TransactionState::Committed),
        Err("read-write conflict".to_string())
    );
}

#[test]
fn serializable_prefers_write_write_report() {
    let mut db = create_db(IsolationLevel::Serializable);
    let t1 = db.new_transaction();
    let t2 = db.new_transaction();
    db.set(t1, "x", "1");
    assert_eq!(db.complete(t1, TransactionState::Committed), Ok(()));
    assert_eq!(db.get(t2, "x"), None);
    db.set(t2, "x", "2");
    assert_eq!(
        db.complete(t2, TransactionState::Committed),
        Err("write-write conflict".to_string())
    );
}

#[test]
fn snapshot_commit_after_peer_finished_succeeds() {
    let mut db = create_db(IsolationLevel::Snapshot);
    let t1 = db.new_transaction();
    db.set(t1, "x", "1");
    assert_eq!(db.complete(t1, TransactionState::Committed), Ok(()));
    let t2 = db.new_transaction();
    db.set(t2, "x", "2");
    assert_eq!(db.complete(t2, TransactionState::Committed), Ok(()));
    let t3 = db.new_transaction();
    assert_eq!(db.get(t3, "x"), Some("2".to_string()));
    assert_eq!(db.chain_len("x"), 2);
}

#[test]
fn read_committed_sees_later_commits() {
    let mut db = create_db(IsolationLevel::ReadCommitted);
    let t1 = db.new_transaction();
    let t2 = db.new_transaction();
    db.set(t2, "x", "v");
    assert_eq!(db.get(t1, "x"), None);
    assert_eq!(db.complete(t2, TransactionState::Committed), Ok(()));
    assert_eq!(db.get(t1, "x"), Some("v".to_string()));
}

#[test]
fn get_on_finished_transaction_reads_nothing() {
    let mut db = create_db(IsolationLevel::ReadUncommitted);
    let t1 = db.new_transaction();
    db.set(t1, "x", "v");
    assert_eq!(db.complete(t1, TransactionState::Committed), Ok(()));
    assert_eq!(db.get(t1, "x"), None);
    assert_eq!(db.get(99, "x"), None);
}

#[test]
fn records_hold_what_they_were_given() {
    let v = Value::new(3, "payload".to_string());
    assert_eq!(v.tx_start_id, 3);
    assert_eq!(v.tx_end_id, 0);
    assert_eq!(v.value, "payload");

    let mut t = Transaction::new(4, IsolationLevel::Snapshot, vec![1, 2]);
    assert_eq!(t.state, TransactionState::InProgress);
    assert_eq!(t.in_progress, vec![1, 2]);
    t.writeset_insert("a".to_string());
    t.writeset_insert("a".to_string());
    t.readset_insert("b".to_string());
    assert_eq!(t.writeset, vec!["a".to_string()]);
    assert_eq!(t.readset, vec!["b".to_string()]);
    let mut u = Transaction::new(5, IsolationLevel::Snapshot, vec![4]);
    assert!(!t.shares_writeset(&u));
    u.writeset_insert("a".to_string());
    assert!(t.shares_writeset(&u));
    assert!(!t.reads_writes_of(&u));
    u.writeset_insert("b".to_string());
    assert!(t.reads_writes_of(&u));
    t.set_state(TransactionState::Aborted);
    assert_eq!(t.state, TransactionState::Aborted);
}
