//! An in-memory multi-version key-value store offering five isolation levels
//! over one version-chain representation.
pub mod connection;
pub mod db;
pub mod decimal;
pub mod laws;

pub mod types;

use vstd::prelude::*;
use crate::connection::Connection;
use crate::db::{Database, DbView};
use crate::types::IsolationLevel;

verus! {

/// An empty store running at Read Uncommitted.
pub fn create_db_uncomitted() -> (r: Database)
    ensures
        r.wf(),
        r@ == (DbView {
            default_isolation: IsolationLevel::ReadUncommitted,
            store: Map::empty(),
            txs: Seq::empty(),
        }),
{
    create_db(IsolationLevel::ReadUncommitted)
}

/// An empty store running at `level`.
pub fn create_db(level: IsolationLevel) -> (r: Database)
    ensures
        r.wf(),
        r@ == (DbView { default_isolation: level, store: Map::empty(), txs: Seq::empty() }),
{
    Database::new(level)
}

/// A connection with no open transaction.
pub fn create_con() -> (r: Connection)
    ensures
        r@ == None::<u64>,
{
    Connection::new()
}

/// A connection on which a transaction of `db` has just begun.
pub fn create_open_con(db: &mut Database) -> (r: Connection)
    requires
        old(db).wf(),
        old(db)@.txs.len() + 2 <= u64::MAX,
    ensures
        final(db).wf(),
        r@ == Some((old(db)@.txs.len() + 1) as u64),
        final(db)@ == old(db)@.begin(),
{
    let mut con = create_con();
    let no_args: Vec<&str> = Vec::new();
    con.must_exec_command(db, "begin", no_args.as_slice());
    con
}

} // verus!
