//! Properties that hold of every store the operations can reach.
use vstd::prelude::*;
use crate::connection::{command_ready, exec_outcome};
use crate::db::{committed, latest_visible, visible, DbView};
use crate::types::{is_snapshot_level, IsolationLevel, TransactionView, VersionView};

verus! {

/// The two registries agree on the state of every transaction.
pub open spec fn same_states(a: Seq<TransactionView>, b: Seq<TransactionView>) -> bool {
    a.len() == b.len() && forall|i: int| 0 <= i < a.len() ==> (#[trigger] a[i]).state == b[i].state
}

/// The two records agree on what visibility reads of a viewer.
pub open spec fn same_viewer(t: TransactionView, u: TransactionView) -> bool {
    t.id == u.id && t.isolation_level == u.isolation_level && t.in_progress == u.in_progress
}

proof fn lemma_visible_ignores_sets(
    t: TransactionView,
    u: TransactionView,
    v: VersionView,
    a: Seq<TransactionView>,
    b: Seq<TransactionView>,
)
    requires
        same_states(a, b),
        same_viewer(t, u),
    ensures
        visible(t, v, a) == visible(u, v, b),
{
    if 1 <= v.tx_start <= a.len() {
        assert(a[v.tx_start - 1].state == b[v.tx_start - 1].state);
    }
    if 1 <= v.tx_end <= a.len() {
        assert(a[v.tx_end - 1].state == b[v.tx_end - 1].state);
    }
    assert(committed(a, v.tx_start) == committed(b, v.tx_start));
    assert(committed(a, v.tx_end) == committed(b, v.tx_end));
}

proof fn lemma_latest_ignores_sets(
    t: TransactionView,
    u: TransactionView,
    chain: Seq<VersionView>,
    a: Seq<TransactionView>,
    b: Seq<TransactionView>,
)
    requires
        same_states(a, b),
        same_viewer(t, u),
    ensures
        latest_visible(t, chain, a) == latest_visible(u, chain, b),
    decreases chain.len(),
{
    if chain.len() > 0 {
        lemma_visible_ignores_sets(t, u, chain.last(), a, b);
        lemma_latest_ignores_sets(t, u, chain.drop_last(), a, b);
    }
}

proof fn lemma_none_visible(t: TransactionView, chain: Seq<VersionView>, txs: Seq<TransactionView>)
    requires
        forall|j: int| 0 <= j < chain.len() ==> !visible(t, #[trigger] chain[j], txs),
    ensures
        latest_visible(t, chain, txs) == None::<Seq<char>>,
    decreases chain.len(),
{
    if chain.len() > 0 {
        assert(!visible(t, chain[chain.len() - 1], txs));
        let rest = chain.drop_last();
        assert forall|j: int| 0 <= j < rest.len() implies !visible(t, #[trigger] rest[j], txs) by {
            assert(rest[j] == chain[j]);
        }
        lemma_none_visible(t, rest, txs);
    }
}

/// Transaction ids are unique and handed out in strictly increasing order:
/// each id is above every id handed out before it, and the next `begin`
/// hands out one above them all.
pub proof fn lemma_ids_increasing(v: DbView)
    requires
        v.inv(),
        v.txs.len() + 2 <= u64::MAX,
    ensures
        forall|i: int, j: int| 0 <= i < j < v.txs.len() ==> v.txs[i].id < v.txs[j].id,
        forall|i: int| 0 <= i < v.txs.len() ==> v.txs[i].id < v.begin().txs.last().id,
{
    assert forall|i: int, j: int| 0 <= i < j < v.txs.len() implies v.txs[i].id < v.txs[j].id by {
        assert(v.txs[i].id == i + 1);
        assert(v.txs[j].id == j + 1);
    }
    assert forall|i: int| 0 <= i < v.txs.len() implies v.txs[i].id < v.begin().txs.last().id by {
        assert(v.txs[i].id == i + 1);
        assert(v.begin().txs.last().id == v.txs.len() + 1);
    }
}

/// Over any run of operations each transaction keeps its id, level and
/// snapshot, and a transaction that has left InProgress keeps its state: a
/// state changes at most once.
pub proof fn lemma_evolves_transitive(a: DbView, b: DbView, c: DbView)
    requires
        a.evolves_to(b),
        b.evolves_to(c),
    ensures
        a.evolves_to(c),
{
    assert forall|i: int| 0 <= i < a.txs.len() implies {
        &&& (#[trigger] c.txs[i]).id == a.txs[i].id
        &&& c.txs[i].isolation_level == a.txs[i].isolation_level
        &&& c.txs[i].in_progress == a.txs[i].in_progress
        &&& (a.txs[i].state != crate::types::TransactionState::InProgress ==> c.txs[i].state
            == a.txs[i].state)
    } by {
        assert(b.txs[i].id == a.txs[i].id);
    }
}

/// Under the snapshot levels every version in every chain was ended by its
/// creator or by a later transaction, or is still live.
pub proof fn lemma_versions_ordered(v: DbView)
    requires
        v.inv(),
        is_snapshot_level(v.default_isolation),
    ensures
        forall|k: Seq<char>, j: int|
            #![trigger v.store[k][j]]
            v.store.contains_key(k) && 0 <= j < v.store[k].len() ==> (v.store[k][j].tx_end == 0
                || v.store[k][j].tx_start <= v.store[k][j].tx_end),
{
}

/// Under Snapshot and Serializable no two committed transactions whose
/// lifetimes overlap wrote a common key.
pub proof fn lemma_committed_writes_apart(v: DbView)
    requires
        v.inv(),
        v.default_isolation == IsolationLevel::Snapshot || v.default_isolation
            == IsolationLevel::Serializable,
    ensures
        v.committed_writes_apart(),
{
}

/// Under Serializable no committed transaction read a key that a committed
/// transaction with an overlapping lifetime wrote.
pub proof fn lemma_committed_reads_apart(v: DbView)
    requires
        v.inv(),
        v.default_isolation == IsolationLevel::Serializable,
    ensures
        v.committed_reads_apart(),
{
}

/// `get` is a function of the reader's id, level and snapshot, of the states
/// in the registry and of the key's chain: two stores that agree on these
/// give the same result.
pub proof fn lemma_read_determined(v: DbView, w: DbView, id: u64, key: Seq<char>)
    requires
        v.has_tx(id),
        same_states(v.txs, w.txs),
        same_viewer(v.tx(id), w.tx(id)),
        v.chain(key) == w.chain(key),
    ensures
        v.read(id, key) == w.read(id, key),
{
    assert(v.txs[id - 1].state == w.txs[id - 1].state);
    lemma_latest_ignores_sets(v.tx(id), w.tx(id), v.chain(key), v.txs, w.txs);
}

/// Reading a key twice in a row within one transaction gives the same
/// result both times.
pub proof fn lemma_read_repeatable(v: DbView, id: u64, key: Seq<char>)
    ensures
        v.after_read(id, key).read(id, key) == v.read(id, key),
{
    if v.is_active(id) {
        let w = v.after_read(id, key);
        assert(same_states(v.txs, w.txs));
        lemma_read_determined(v, w, id, key);
    }
}

/// After `set(T, k, v)`, `get(T, k)` within T returns `v`, at every level.
pub proof fn lemma_read_own_write(v: DbView, id: u64, key: Seq<char>, value: Seq<char>)
    requires
        v.inv(),
        v.is_active(id),
    ensures
        v.after_set(id, key, value).read(id, key) == Some(value),
{
    let w = v.after_set(id, key, value);
    let t = w.tx(id);
    assert(v.txs[id - 1].id == id);
    assert(t.id == id);
    assert(w.is_active(id));
    let c = w.chain(key);
    let new = VersionView { tx_start: id, tx_end: 0, value };
    assert(c.last() == new);
    if t.in_progress.contains(id) {
        assert(v.txs[id - 1].in_progress.contains(id));
    }
    assert(visible(t, new, w.txs));
}

/// After `delete(T, k)`, `get(T, k)` within T finds nothing, at every level.
pub proof fn lemma_read_after_delete(v: DbView, id: u64, key: Seq<char>)
    requires
        v.inv(),
        v.is_active(id),
    ensures
        v.after_delete(id, key).read(id, key) == None::<Seq<char>>,
{
    let w = v.after_delete(id, key);
    let t = v.tx(id);
    let u = w.tx(id);
    assert(v.txs[id - 1].id == id);
    assert(same_states(v.txs, w.txs));
    assert(same_viewer(t, u));
    let c = w.chain(key);
    assert forall|j: int| 0 <= j < c.len() implies !visible(u, #[trigger] c[j], w.txs) by {
        let o = v.chain(key)[j];
        lemma_visible_ignores_sets(t, u, o, v.txs, w.txs);
        lemma_visible_ignores_sets(t, u, VersionView { tx_end: id, ..o }, v.txs, w.txs);
    }
    lemma_none_visible(u, c, w.txs);
}

/// After `abort` the connection holds no transaction, so no command that
/// works within one can run until a new `begin`.
pub proof fn lemma_abort_needs_begin(
    current: Option<u64>,
    db: DbView,
    args: Seq<Seq<char>>,
    command: Seq<char>,
    next_args: Seq<Seq<char>>,
)
    requires
        current.is_some(),
        command == "abort"@ || command == "commit"@ || command == "get"@ || command == "set"@
            || command == "delete"@,
    ensures
        exec_outcome(current, db, "abort"@, args).0 == None::<u64>,
        !command_ready(
            exec_outcome(current, db, "abort"@, args).0,
            exec_outcome(current, db, "abort"@, args).1,
            command,
            next_args,
        ),
{
    reveal_strlit("abort");
    reveal_strlit("begin");
    reveal_strlit("commit");
    reveal_strlit("get");
    reveal_strlit("set");
    reveal_strlit("delete");
    assert("abort"@[0] != "begin"@[0]);
    assert("commit"@[0] != "begin"@[0]);
    assert("get"@[0] != "begin"@[0]);
    assert("set"@[0] != "begin"@[0]);
    assert("delete"@[0] != "begin"@[0]);
}

} // verus!
