use vstd::prelude::*;
use crate::db::{tx_message, Database, DbView};
use crate::types::TransactionState;

verus! {

/// The arguments of a command, as character sequences.
pub open spec fn arg_views(args: Seq<&str>) -> Seq<Seq<char>> {
    args.map_values(|a: &str| a@)
}

pub open spec fn string_result(r: Result<String, String>) -> Result<Seq<char>, Seq<char>> {
    match r {
        Ok(s) => Ok(s@),
        Err(e) => Err(e@),
    }
}

/// What a command needs before it runs: `begin` needs no open transaction,
/// the others an open one (`set` and `delete` one still in progress), and
/// each its arguments.
pub open spec fn command_ready(
    current: Option<u64>,
    db: DbView,
    command: Seq<char>,
    args: Seq<Seq<char>>,
) -> bool {
    if command == "begin"@ {
        current.is_none() && db.txs.len() + 2 <= u64::MAX
    } else if command == "abort"@ || command == "commit"@ {
        current.is_some()
    } else if command == "get"@ {
        current.is_some() && args.len() >= 1
    } else if command == "set"@ {
        current.is_some() && db.is_active(current.unwrap()) && args.len() >= 2
    } else if command == "delete"@ {
        current.is_some() && db.is_active(current.unwrap()) && args.len() >= 1
    } else {
        true
    }
}

/// The reply to `commit` or `abort`, given what ending the transaction returned.
pub open spec fn end_reply(done: Result<(), Seq<char>>, word: Seq<char>) -> Result<Seq<char>, Seq<char>> {
    match done {
        Ok(()) => Ok(word),
        Err(e) => Err(e),
    }
}

/// What running a command does: the connection's transaction afterwards,
/// the store afterwards, and the reply. Arguments past those a command
/// takes are ignored.
pub open spec fn exec_outcome(
    current: Option<u64>,
    db: DbView,
    command: Seq<char>,
    args: Seq<Seq<char>>,
) -> (Option<u64>, DbView, Result<Seq<char>, Seq<char>>) {
    let id = current.unwrap();
    if command == "begin"@ {
        let new_id = (db.txs.len() + 1) as u64;
        (Some(new_id), db.begin(), Ok(tx_message(new_id, ""@)))
    } else if command == "abort"@ {
        (
            None,
            db.after_complete(id, TransactionState::Aborted),
            end_reply(db.complete_result(id, TransactionState::Aborted), "aborted"@),
        )
    } else if command == "commit"@ {
        (
            None,
            db.after_complete(id, TransactionState::Committed),
            end_reply(db.complete_result(id, TransactionState::Committed), "committed"@),
        )
    } else if command == "get"@ {
        (
            current,
            db.after_read(id, args[0]),
            match db.read(id, args[0]) {
                Some(v) => Ok(v),
                None => Err("key "@ + args[0] + " not found"@),
            },
        )
    } else if command == "set"@ {
        (current, db.after_set(id, args[0], args[1]), Ok("value set"@))
    } else if command == "delete"@ {
        (current, db.after_delete(id, args[0]), Ok("value deleted"@))
    } else {
        (current, db, Err("unknown command `"@ + command + "`"@))
    }
}

/// Whether `s` is the word `w`.
fn is_word(s: &str, w: &str) -> (r: bool)
    ensures
        r == (s@ == w@),
{
    s.to_owned() == w.to_owned()
}

/// A client handle on a store, holding the transaction it has open, if any.
pub struct Connection {
    transaction_id: Option<u64>,
}

impl View for Connection {
    type V = Option<u64>;

    closed spec fn view(&self) -> Option<u64> {
        self.transaction_id
    }
}

impl Connection {
    /// A connection with no open transaction.
    pub fn new() -> (r: Self)
        ensures
            r@ == None::<u64>,
    {
        Connection { transaction_id: None }
    }

    /// The transaction this connection has open.
    pub fn transaction_id(&self) -> (r: Option<u64>)
        ensures
            r == self@,
    {
        self.transaction_id
    }

    /// Runs one command against `db`: begin, abort, commit, get, set or
    /// delete. Commit and abort close the connection's transaction whatever
    /// they return.
    pub fn exec_command(&mut self, db: &mut Database, command: &str, args: &[&str]) -> (r: Result<String, String>)
        requires
            old(db).wf(),
            command_ready(old(self)@, old(db)@, command@, arg_views(args@)),
        ensures
            final(db).wf(),
            (final(self)@, final(db)@, string_result(r)) == exec_outcome(
                old(self)@,
                old(db)@,
                command@,
                arg_views(args@),
            ),
            old(db)@.evolves_to(final(db)@),
    {
        let ghost a = arg_views(args@);
        if is_word(command, "begin") {
            let new_id = db.new_transaction();
            self.transaction_id = Some(new_id);
            Ok(crate::db::transaction_message(new_id, ""))
        } else if is_word(command, "abort") {
            let id = self.transaction_id.unwrap();
            let res = db.complete(id, TransactionState::Aborted);
            self.transaction_id = None;
            match res {
                Ok(()) => Ok("aborted".to_owned()),
                Err(e) => Err(e),
            }
        } else if is_word(command, "commit") {
            let id = self.transaction_id.unwrap();
            let res = db.complete(id, TransactionState::Committed);
            self.transaction_id = None;
            match res {
                Ok(()) => Ok("committed".to_owned()),
                Err(e) => Err(e),
            }
        } else if is_word(command, "get") {
            let id = self.transaction_id.unwrap();
            let key = args[0];
            assert(a[0] == key@);
            match db.get(id, key) {
                Some(v) => Ok(v),
                None => {
                    let mut msg = "key ".to_owned();
                    msg.append(key);
                    msg.append(" not found");
                    Err(msg)
                },
            }
        } else if is_word(command, "set") {
            let id = self.transaction_id.unwrap();
            assert(a[0] == args@[0]@ && a[1] == args@[1]@);
            db.set(id, args[0], args[1]);
            Ok("value set".to_owned())
        } else if is_word(command, "delete") {
            let id = self.transaction_id.unwrap();
            assert(a[0] == args@[0]@);
            db.delete(id, args[0]);
            Ok("value deleted".to_owned())
        } else {
            let mut msg = "unknown command `".to_owned();
            msg.append(command);
            msg.append("`");
            Err(msg)
        }
    }

    /// Runs a command that is known to succeed and returns its reply.
    pub fn must_exec_command(&mut self, db: &mut Database, command: &str, args: &[&str]) -> (r: String)
        requires
            old(db).wf(),
            command_ready(old(self)@, old(db)@, command@, arg_views(args@)),
            exec_outcome(old(self)@, old(db)@, command@, arg_views(args@)).2 is Ok,
        ensures
            final(db).wf(),
            final(self)@ == exec_outcome(old(self)@, old(db)@, command@, arg_views(args@)).0,
            final(db)@ == exec_outcome(old(self)@, old(db)@, command@, arg_views(args@)).1,
            Ok::<Seq<char>, Seq<char>>(r@) == exec_outcome(old(self)@, old(db)@, command@, arg_views(args@)).2,
            old(db)@.evolves_to(final(db)@),
    {
        match self.exec_command(db, command, args) {
            Ok(s) => s,
            Err(e) => e,
        }
    }
}

} // verus!
