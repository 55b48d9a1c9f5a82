use vstd::prelude::*;
use crate::decimal::{decimal, decimal_string};
use crate::types::{
    contains_id, is_snapshot_level, IsolationLevel, Transaction, TransactionState,
    TransactionView, Value, VersionView,
};

verus! {

/// Mathematical form of the whole store: the version chain of every key ever
/// written, and the registry of transactions, where id `n` sits at index `n - 1`.
pub struct DbView {
    pub default_isolation: IsolationLevel,
    pub store: Map<Seq<char>, Seq<VersionView>>,
    pub txs: Seq<TransactionView>,
}

/// Whether the registry holds a committed transaction with this id.
pub open spec fn committed(txs: Seq<TransactionView>, id: u64) -> bool {
    1 <= id <= txs.len() && txs[id - 1].state == TransactionState::Committed
}

/// Whether version `v` may be observed by transaction `t`.
pub open spec fn visible(t: TransactionView, v: VersionView, txs: Seq<TransactionView>) -> bool {
    match t.isolation_level {
        IsolationLevel::ReadUncommitted => v.tx_end == 0,
        IsolationLevel::ReadCommitted => {
            &&& (v.tx_start == t.id || committed(txs, v.tx_start))
            &&& v.tx_end != t.id
            &&& (v.tx_end == 0 || !committed(txs, v.tx_end))
        },
        _ => {
            &&& v.tx_start <= t.id
            &&& !t.in_progress.contains(v.tx_start)
            &&& (v.tx_start == t.id || committed(txs, v.tx_start))
            &&& v.tx_end != t.id
            &&& !(v.tx_end > 0 && v.tx_end < t.id && committed(txs, v.tx_end)
                && !t.in_progress.contains(v.tx_end))
        },
    }
}

/// The value of the newest version of `chain` that `t` may observe.
pub open spec fn latest_visible(
    t: TransactionView,
    chain: Seq<VersionView>,
    txs: Seq<TransactionView>,
) -> Option<Seq<char>>
    decreases chain.len(),
{
    if chain.len() == 0 {
        None
    } else if visible(t, chain.last(), txs) {
        Some(chain.last().value)
    } else {
        latest_visible(t, chain.drop_last(), txs)
    }
}

/// `chain` with every version visible to `t` marked as ended by `t`.
pub open spec fn stamp(
    t: TransactionView,
    chain: Seq<VersionView>,
    txs: Seq<TransactionView>,
) -> Seq<VersionView> {
    chain.map_values(
        |v: VersionView|
            if visible(t, v, txs) {
                VersionView { tx_end: t.id, ..v }
            } else {
                v
            },
    )
}

/// `u` is a peer of `t` for the commit check: `u` was running when `t`
/// began, or began after it.
pub open spec fn concurrent(t: TransactionView, u: TransactionView) -> bool {
    u.id != t.id && (t.in_progress.contains(u.id) || t.id < u.id)
}

/// The lifetimes of `t` and `u` overlap: the younger began while the older
/// was still in progress.
pub open spec fn lifetimes_overlap(t: TransactionView, u: TransactionView) -> bool {
    (t.id < u.id && u.in_progress.contains(t.id)) || (u.id < t.id && t.in_progress.contains(u.id))
}

/// "transaction <id>" followed by `suffix`.
pub open spec fn tx_message(id: u64, suffix: Seq<char>) -> Seq<char> {
    "transaction "@ + decimal(id as nat) + suffix
}

impl DbView {
    pub open spec fn has_tx(self, id: u64) -> bool {
        1 <= id <= self.txs.len()
    }

    pub open spec fn tx(self, id: u64) -> TransactionView {
        self.txs[id - 1]
    }

    pub open spec fn is_active(self, id: u64) -> bool {
        self.has_tx(id) && self.tx(id).state == TransactionState::InProgress
    }

    /// The ids of the transactions in progress.
    pub open spec fn active_ids(self) -> Set<u64> {
        Set::new(|id: u64| self.is_active(id))
    }

    /// The version chain of `key`; empty when the key was never written.
    pub open spec fn chain(self, key: Seq<char>) -> Seq<VersionView> {
        if self.store.contains_key(key) {
            self.store[key]
        } else {
            Seq::empty()
        }
    }

    /// The store after a new transaction began.
    pub open spec fn begin(self) -> DbView {
        DbView {
            txs: self.txs.push(
                TransactionView {
                    id: (self.txs.len() + 1) as u64,
                    isolation_level: self.default_isolation,
                    state: TransactionState::InProgress,
                    in_progress: self.active_ids(),
                    writeset: Set::empty(),
                    readset: Set::empty(),
                },
            ),
            ..self
        }
    }

    /// What `get` returns: nothing for a transaction that is not in progress.
    pub open spec fn read(self, id: u64, key: Seq<char>) -> Option<Seq<char>> {
        if self.is_active(id) {
            latest_visible(self.tx(id), self.chain(key), self.txs)
        } else {
            None
        }
    }

    /// The store after `get`: the key joins the reader's readset.
    pub open spec fn after_read(self, id: u64, key: Seq<char>) -> DbView {
        if self.is_active(id) {
            DbView {
                txs: self.txs.update(
                    id - 1,
                    TransactionView { readset: self.tx(id).readset.insert(key), ..self.tx(id) },
                ),
                ..self
            }
        } else {
            self
        }
    }

    /// The registry with `key` added to the writeset of `id`.
    pub open spec fn with_write(self, id: u64, key: Seq<char>) -> Seq<TransactionView> {
        self.txs.update(
            id - 1,
            TransactionView { writeset: self.tx(id).writeset.insert(key), ..self.tx(id) },
        )
    }

    /// The store after `set`: visible versions are ended and a live one appended.
    pub open spec fn after_set(self, id: u64, key: Seq<char>, value: Seq<char>) -> DbView {
        DbView {
            store: self.store.insert(
                key,
                stamp(self.tx(id), self.chain(key), self.txs).push(
                    VersionView { tx_start: id, tx_end: 0, value },
                ),
            ),
            txs: self.with_write(id, key),
            ..self
        }
    }

    /// The store after `delete`: visible versions are ended, nothing appended.
    pub open spec fn after_delete(self, id: u64, key: Seq<char>) -> DbView {
        DbView {
            store: if self.store.contains_key(key) {
                self.store.insert(key, stamp(self.tx(id), self.chain(key), self.txs))
            } else {
                self.store
            },
            txs: self.with_write(id, key),
            ..self
        }
    }

    /// A committed peer of `t` wrote a key that `t` wrote.
    pub open spec fn write_conflict(self, t: TransactionView) -> bool {
        exists|i: int|
            0 <= i < self.txs.len() && (#[trigger] self.txs[i]).state == TransactionState::Committed
                && concurrent(t, self.txs[i]) && !t.writeset.disjoint(self.txs[i].writeset)
    }

    /// A committed peer of `t` wrote a key that `t` read, or read a key that `t` wrote.
    pub open spec fn read_conflict(self, t: TransactionView) -> bool {
        exists|i: int|
            0 <= i < self.txs.len() && (#[trigger] self.txs[i]).state == TransactionState::Committed
                && concurrent(t, self.txs[i]) && (!t.readset.disjoint(self.txs[i].writeset)
                || !t.writeset.disjoint(self.txs[i].readset))
    }

    /// Why committing `id` must fail, if it must; a write-write conflict is
    /// reported before a read-write one.
    pub open spec fn commit_error(self, id: u64) -> Option<Seq<char>> {
        let t = self.tx(id);
        if (t.isolation_level == IsolationLevel::Snapshot || t.isolation_level
            == IsolationLevel::Serializable) && self.write_conflict(t) {
            Some("write-write conflict"@)
        } else if t.isolation_level == IsolationLevel::Serializable && self.read_conflict(t) {
            Some("read-write conflict"@)
        } else {
            None
        }
    }

    /// What `complete` returns.
    pub open spec fn complete_result(self, id: u64, state: TransactionState) -> Result<(), Seq<char>> {
        if !self.has_tx(id) {
            Err(tx_message(id, " not found"@))
        } else if self.tx(id).state != TransactionState::InProgress {
            Err(tx_message(id, " is not in progress"@))
        } else if state == TransactionState::Committed && self.commit_error(id).is_some() {
            Err(self.commit_error(id).unwrap())
        } else {
            Ok(())
        }
    }

    /// The store after `complete`: only the state of `id` changes, to
    /// Aborted where the commit check failed.
    pub open spec fn after_complete(self, id: u64, state: TransactionState) -> DbView {
        if self.is_active(id) {
            let s = if state == TransactionState::Committed && self.commit_error(id).is_some() {
                TransactionState::Aborted
            } else {
                state
            };
            DbView { txs: self.txs.update(id - 1, TransactionView { state: s, ..self.tx(id) }), ..self }
        } else {
            self
        }
    }

    /// Transaction ids are 1, 2, 3, ... in registry order.
    pub open spec fn ids_in_order(self) -> bool {
        forall|i: int| 0 <= i < self.txs.len() ==> (#[trigger] self.txs[i]).id == i + 1
    }

    /// A transaction's snapshot holds only ids below its own.
    pub open spec fn snapshots_earlier(self) -> bool {
        forall|i: int, x: u64|
            0 <= i < self.txs.len() && #[trigger] self.txs[i].in_progress.contains(x) ==> x
                < self.txs[i].id
    }

    /// Every transaction runs at the store's isolation level.
    pub open spec fn levels_uniform(self) -> bool {
        forall|i: int|
            0 <= i < self.txs.len() ==> (#[trigger] self.txs[i]).isolation_level
                == self.default_isolation
    }

    /// Every ended version was ended by its creator or a later transaction.
    pub open spec fn versions_ordered(self) -> bool {
        forall|k: Seq<char>, j: int|
            #![trigger self.store[k][j]]
            self.store.contains_key(k) && 0 <= j < self.store[k].len() ==> (self.store[k][j].tx_end
                == 0 || self.store[k][j].tx_start <= self.store[k][j].tx_end)
    }

    /// No two committed transactions with overlapping lifetimes wrote a common key.
    pub open spec fn committed_writes_apart(self) -> bool {
        forall|i: int, j: int|
            0 <= i < self.txs.len() && 0 <= j < self.txs.len() && i != j && (#[trigger] self.txs[i]).state
                == TransactionState::Committed && (#[trigger] self.txs[j]).state
                == TransactionState::Committed && lifetimes_overlap(self.txs[i], self.txs[j])
                ==> self.txs[i].writeset.disjoint(self.txs[j].writeset)
    }

    /// No committed transaction read a key that a committed transaction with
    /// an overlapping lifetime wrote.
    pub open spec fn committed_reads_apart(self) -> bool {
        forall|i: int, j: int|
            0 <= i < self.txs.len() && 0 <= j < self.txs.len() && i != j && (#[trigger] self.txs[i]).state
                == TransactionState::Committed && (#[trigger] self.txs[j]).state
                == TransactionState::Committed && lifetimes_overlap(self.txs[i], self.txs[j])
                ==> self.txs[i].readset.disjoint(self.txs[j].writeset)
    }

    /// What holds of every reachable store.
    pub open spec fn inv(self) -> bool {
        &&& self.ids_in_order()
        &&& self.snapshots_earlier()
        &&& self.levels_uniform()
        &&& (is_snapshot_level(self.default_isolation) ==> self.versions_ordered())
        &&& ((self.default_isolation == IsolationLevel::Snapshot || self.default_isolation
            == IsolationLevel::Serializable) ==> self.committed_writes_apart())
        &&& (self.default_isolation == IsolationLevel::Serializable ==> self.committed_reads_apart())
    }

    /// How any operation may change the registry: transactions are only
    /// added, each keeps its id, level and snapshot, and a finished one
    /// keeps its state.
    pub open spec fn evolves_to(self, next: DbView) -> bool {
        &&& self.txs.len() <= next.txs.len()
        &&& next.default_isolation == self.default_isolation
        &&& forall|i: int|
            0 <= i < self.txs.len() ==> {
                &&& (#[trigger] next.txs[i]).id == self.txs[i].id
                &&& next.txs[i].isolation_level == self.txs[i].isolation_level
                &&& next.txs[i].in_progress == self.txs[i].in_progress
                &&& (self.txs[i].state != TransactionState::InProgress ==> next.txs[i].state
                    == self.txs[i].state)
            }
    }
}

pub open spec fn chain_view(c: Vec<Value>) -> Seq<VersionView> {
    c@.map_values(|v: Value| v@)
}

pub open spec fn tx_views(txs: Seq<Transaction>) -> Seq<TransactionView> {
    txs.map_values(|t: Transaction| t@)
}

pub open spec fn string_option(r: Option<String>) -> Option<Seq<char>> {
    match r {
        Some(s) => Some(s@),
        None => None,
    }
}

pub open spec fn unit_result(r: Result<(), String>) -> Result<(), Seq<char>> {
    match r {
        Ok(()) => Ok(()),
        Err(e) => Err(e@),
    }
}

spec fn keys_unique(keys: Seq<String>) -> bool {
    forall|i: int, j: int| 0 <= i < keys.len() && 0 <= j < keys.len() && i != j ==> keys[i]@ != keys[j]@
}

spec fn store_view(keys: Seq<String>, chains: Seq<Vec<Value>>) -> Map<Seq<char>, Seq<VersionView>> {
    Map::new(
        |k: Seq<char>| exists|i: int| 0 <= i < keys.len() && #[trigger] keys[i]@ == k,
        |k: Seq<char>| chain_view(chains[choose|i: int| 0 <= i < keys.len() && #[trigger] keys[i]@ == k]),
    )
}

proof fn lemma_store_at(keys: Seq<String>, chains: Seq<Vec<Value>>, i: int)
    requires
        keys_unique(keys),
        keys.len() == chains.len(),
        0 <= i < keys.len(),
    ensures
        store_view(keys, chains).contains_key(keys[i]@),
        store_view(keys, chains)[keys[i]@] == chain_view(chains[i]),
{
    let k = keys[i]@;
    assert(keys[i]@ == k);
    let j = choose|j: int| 0 <= j < keys.len() && #[trigger] keys[j]@ == k;
    assert(j == i);
}

proof fn lemma_store_missing(keys: Seq<String>, chains: Seq<Vec<Value>>, k: Seq<char>)
    requires
        forall|i: int| 0 <= i < keys.len() ==> keys[i]@ != k,
    ensures
        !store_view(keys, chains).contains_key(k),
{
}

proof fn lemma_store_update(keys: Seq<String>, chains: Seq<Vec<Value>>, i: int, c: Vec<Value>)
    requires
        keys_unique(keys),
        keys.len() == chains.len(),
        0 <= i < keys.len(),
    ensures
        store_view(keys, chains.update(i, c)) == store_view(keys, chains).insert(keys[i]@, chain_view(c)),
{
    let a = store_view(keys, chains.update(i, c));
    let b = store_view(keys, chains).insert(keys[i]@, chain_view(c));
    lemma_store_at(keys, chains.update(i, c), i);
    assert forall|k: Seq<char>| a.contains_key(k) implies a[k] == b[k] by {
        let j = choose|j: int| 0 <= j < keys.len() && #[trigger] keys[j]@ == k;
        lemma_store_at(keys, chains.update(i, c), j);
        lemma_store_at(keys, chains, j);
    }
    assert forall|k: Seq<char>| b.contains_key(k) implies a.contains_key(k) by {
        if k != keys[i]@ {
            let j = choose|j: int| 0 <= j < keys.len() && #[trigger] keys[j]@ == k;
            lemma_store_at(keys, chains.update(i, c), j);
        }
    }
    assert(a =~= b);
}

proof fn lemma_store_push(keys: Seq<String>, chains: Seq<Vec<Value>>, k: String, c: Vec<Value>)
    requires
        keys_unique(keys),
        keys.len() == chains.len(),
        forall|i: int| 0 <= i < keys.len() ==> keys[i]@ != k@,
    ensures
        keys_unique(keys.push(k)),
        store_view(keys.push(k), chains.push(c)) == store_view(keys, chains).insert(k@, chain_view(c)),
{
    let nk = keys.push(k);
    let nc = chains.push(c);
    let a = store_view(nk, nc);
    let b = store_view(keys, chains).insert(k@, chain_view(c));
    assert(keys_unique(nk));
    lemma_store_at(nk, nc, keys.len() as int);
    assert forall|q: Seq<char>| a.contains_key(q) implies a[q] == b[q] by {
        let j = choose|j: int| 0 <= j < nk.len() && #[trigger] nk[j]@ == q;
        lemma_store_at(nk, nc, j);
        if j < keys.len() {
            lemma_store_at(keys, chains, j);
        }
    }
    assert forall|q: Seq<char>| b.contains_key(q) implies a.contains_key(q) by {
        if q != k@ {
            let j = choose|j: int| 0 <= j < keys.len() && #[trigger] keys[j]@ == q;
            lemma_store_at(nk, nc, j);
        }
    }
    assert(a =~= b);
}

/// The store: the version chain of each key and the transaction registry.
pub struct Database {
    default_isolation: IsolationLevel,
    keys: Vec<String>,
    chains: Vec<Vec<Value>>,
    transactions: Vec<Transaction>,
    next_transaction_id: u64,
}

impl View for Database {
    type V = DbView;

    closed spec fn view(&self) -> DbView {
        DbView {
            default_isolation: self.default_isolation,
            store: store_view(self.keys@, self.chains@),
            txs: tx_views(self.transactions@),
        }
    }
}

impl Database {
    /// Well-formedness of the representation, and the invariant of the view.
    pub closed spec fn wf(&self) -> bool {
        &&& self.keys.len() == self.chains.len()
        &&& keys_unique(self.keys@)
        &&& self.next_transaction_id == self.transactions.len() + 1
        &&& self@.inv()
    }

    /// An empty store whose transactions run at `default_isolation`.
    pub fn new(default_isolation: IsolationLevel) -> (r: Self)
        ensures
            r.wf(),
            r@ == (DbView { default_isolation, store: Map::empty(), txs: Seq::empty() }),
    {
        let r = Database {
            default_isolation,
            keys: Vec::new(),
            chains: Vec::new(),
            transactions: Vec::new(),
            next_transaction_id: 1,
        };
        assert(store_view(r.keys@, r.chains@) =~= Map::empty());
        assert(tx_views(r.transactions@) =~= Seq::empty());
        r
    }
}

/// Whether `id` names a committed transaction of the registry.
fn is_committed(txs: &Vec<Transaction>, id: u64) -> (r: bool)
    ensures
        r == committed(tx_views(txs@), id),
{
    if id >= 1 && (id as u128) <= (txs.len() as u128) {
        let i = (id - 1) as usize;
        txs[i].state == TransactionState::Committed
    } else {
        false
    }
}

/// The visibility rule of the viewer's isolation level.
fn is_visible(transaction: &Transaction, value: &Value, transactions: &Vec<Transaction>) -> (r: bool)
    ensures
        r == visible(transaction@, value@, tx_views(transactions@)),
{
    let t = transaction;
    let v = value;
    match t.isolation_level {
        IsolationLevel::ReadUncommitted => v.tx_end_id == 0,
        IsolationLevel::ReadCommitted => {
            if v.tx_start_id != t.id && !is_committed(transactions, v.tx_start_id) {
                // created by another transaction that has not committed
                return false;
            }
            if v.tx_end_id == t.id {
                // ended by the viewer itself
                return false;
            }
            if v.tx_end_id != 0 && is_committed(transactions, v.tx_end_id) {
                // ended by a committed transaction
                return false;
            }
            true
        },
        IsolationLevel::RepeatableRead | IsolationLevel::Snapshot | IsolationLevel::Serializable => {
            if v.tx_start_id > t.id {
                // created by a transaction that began later
                return false;
            }
            if contains_id(&t.in_progress, v.tx_start_id) {
                // created by a transaction running when the viewer began
                return false;
            }
            if v.tx_start_id != t.id && !is_committed(transactions, v.tx_start_id) {
                return false;
            }
            if v.tx_end_id == t.id {
                return false;
            }
            if v.tx_end_id > 0 && v.tx_end_id < t.id && is_committed(transactions, v.tx_end_id)
                && !contains_id(&t.in_progress, v.tx_end_id) {
                // ended by a transaction that committed before the viewer began
                return false;
            }
            true
        },
    }
}

/// The value of the newest version of `chain` visible to `transaction`.
fn latest_visible_in(
    transaction: &Transaction,
    chain: &Vec<Value>,
    transactions: &Vec<Transaction>,
) -> (r: Option<String>)
    ensures
        string_option(r) == latest_visible(transaction@, chain_view(*chain), tx_views(transactions@)),
{
    let ghost cv = chain_view(*chain);
    let ghost txs = tx_views(transactions@);
    let mut j: usize = chain.len();
    assert(cv.take(j as int) =~= cv);
    while j > 0
        invariant
            j <= chain.len(),
            cv == chain_view(*chain),
            txs == tx_views(transactions@),
            latest_visible(transaction@, cv, txs) == latest_visible(transaction@, cv.take(j as int), txs),
        decreases j,
    {
        let ghost pre = cv.take(j as int);
        assert(pre.last() == chain@[j - 1]@);
        assert(pre.drop_last() =~= cv.take(j - 1));
        if is_visible(transaction, &chain[j - 1], transactions) {
            return Some(chain[j - 1].value.clone());
        }
        j = j - 1;
    }
    assert(cv.take(0).len() == 0);
    None
}

/// Marks every version of `chain` visible to `transaction` as ended by it.
fn stamp_chain(chain: &mut Vec<Value>, transaction: &Transaction, transactions: &Vec<Transaction>)
    ensures
        chain_view(*final(chain)) == stamp(transaction@, chain_view(*old(chain)), tx_views(transactions@)),
{
    let ghost target = stamp(transaction@, chain_view(*old(chain)), tx_views(transactions@));
    let mut j: usize = 0;
    while j < chain.len()
        invariant
            0 <= j <= chain.len(),
            chain.len() == old(chain).len(),
            target == stamp(transaction@, chain_view(*old(chain)), tx_views(transactions@)),
            forall|m: int| 0 <= m < j ==> #[trigger] chain@[m]@ == target[m],
            forall|m: int| j <= m < chain.len() ==> #[trigger] chain@[m]@ == old(chain)@[m]@,
        decreases chain.len() - j,
    {
        if is_visible(transaction, &chain[j], transactions) {
            chain[j].tx_end_id = transaction.id;
        }
        j = j + 1;
    }
    assert(chain_view(*chain) =~= target);
}

/// Where `key` stands among `keys`, if it does.
fn find_key(keys: &Vec<String>, key: &String) -> (r: Option<usize>)
    ensures
        match r {
            Some(i) => i < keys.len() && keys@[i as int]@ == key@,
            None => forall|i: int| 0 <= i < keys.len() ==> keys@[i]@ != key@,
        },
{
    let mut i: usize = 0;
    while i < keys.len()
        invariant
            0 <= i <= keys.len(),
            forall|j: int| 0 <= j < i ==> keys@[j]@ != key@,
        decreases keys.len() - i,
    {
        if keys[i] == *key {
            return Some(i);
        }
        i = i + 1;
    }
    None
}

impl Database {
    /// The ids of the transactions in progress, in ascending order.
    pub fn in_progress(&self) -> (r: Vec<u64>)
        requires
            self.wf(),
        ensures
            r@.to_set() == self@.active_ids(),
            forall|i: int, j: int| 0 <= i < j < r@.len() ==> r@[i] < r@[j],
    {
        let mut result: Vec<u64> = Vec::new();
        let mut i: usize = 0;
        while i < self.transactions.len()
            invariant
                self.wf(),
                0 <= i <= self.transactions.len(),
                forall|id: u64| result@.contains(id) <==> (1 <= id <= i && self@.is_active(id)),
                forall|a: int, b: int| 0 <= a < b < result@.len() ==> result@[a] < result@[b],
                forall|a: int| 0 <= a < result@.len() ==> result@[a] <= i,
            decreases self.transactions.len() - i,
        {
            let t = &self.transactions[i];
            assert(self@.txs[i as int] == t@);
            let ghost prev = result@;
            if t.state == TransactionState::InProgress {
                result.push(t.id);
            }
            proof {
                assert forall|id: u64| result@.contains(id) <==> (1 <= id <= i + 1 && self@.is_active(id)) by {
                    if prev.contains(id) {
                        let k = choose|k: int| 0 <= k < prev.len() && prev[k] == id;
                        assert(result@[k] == id);
                    }
                    if id == i + 1 && self@.is_active(id) {
                        assert(result@[result@.len() - 1] == id);
                    }
                    if result@.contains(id) {
                        let k = choose|k: int| 0 <= k < result@.len() && result@[k] == id;
                        if k < prev.len() {
                            assert(prev[k] == id);
                        }
                    }
                }
            }
            i = i + 1;
        }
        assert(result@.to_set() =~= self@.active_ids());
        result
    }

    /// Begins a transaction at the store's level and returns its id, one
    /// above every id handed out before.
    pub fn new_transaction(&mut self) -> (r: u64)
        requires
            old(self).wf(),
            old(self)@.txs.len() + 2 <= u64::MAX,
        ensures
            final(self).wf(),
            r == old(self)@.txs.len() + 1,
            final(self)@ == old(self)@.begin(),
            old(self)@.evolves_to(final(self)@),
    {
        let ids = self.in_progress();
        let id = self.next_transaction_id;
        let t = Transaction::new(id, self.default_isolation, ids);
        self.next_transaction_id = id + 1;
        let ghost old_view = self@;
        self.transactions.push(t);
        proof {
            assert(tx_views(self.transactions@) =~= old_view.txs.push(t@));
            assert(self@ == old(self)@.begin());
            let v = self@;
            assert(forall|i: int| 0 <= i < old_view.txs.len() ==> v.txs[i] == old_view.txs[i]);
            assert(v.txs[old_view.txs.len() as int].state == TransactionState::InProgress);
        }
        id
    }

    /// Reads `key` within transaction `transaction_id`: the value of the
    /// newest version visible to it, recording the key as read. A
    /// transaction that is not in progress reads nothing and changes nothing.
    pub fn get(&mut self, transaction_id: u64, key: &str) -> (r: Option<String>)
        requires
            old(self).wf(),
        ensures
            final(self).wf(),
            string_option(r) == old(self)@.read(transaction_id, key@),
            final(self)@ == old(self)@.after_read(transaction_id, key@),
            old(self)@.evolves_to(final(self)@),
    {
        if transaction_id == 0 || transaction_id >= self.next_transaction_id {
            return None;
        }
        let ti = (transaction_id - 1) as usize;
        assert(self@.tx(transaction_id) == self.transactions@[ti as int]@);
        if self.transactions[ti].state != TransactionState::InProgress {
            return None;
        }
        let k = key.to_owned();
        let r = match find_key(&self.keys, &k) {
            Some(ki) => {
                proof { lemma_store_at(self.keys@, self.chains@, ki as int); }
                latest_visible_in(&self.transactions[ti], &self.chains[ki], &self.transactions)
            },
            None => None,
        };
        let ghost old_view = self@;
        self.transactions[ti].readset_insert(k);
        proof {
            assert(tx_views(self.transactions@) =~= old_view.txs.update(ti as int, self.transactions@[ti as int]@));
            assert(self@ == old_view.after_read(transaction_id, key@));
            lemma_active_change_keeps_inv(old_view, self@, ti as int);
        }
        r
    }
}

/// Changing the read and write sets of a transaction in progress keeps the
/// invariant.
proof fn lemma_active_change_keeps_inv(a: DbView, b: DbView, ti: int)
    requires
        a.inv(),
        0 <= ti < a.txs.len(),
        a.txs[ti].state == TransactionState::InProgress,
        b.default_isolation == a.default_isolation,
        b.store == a.store,
        b.txs.len() == a.txs.len(),
        b.txs[ti].state == TransactionState::InProgress,
        b.txs[ti].id == a.txs[ti].id,
        b.txs[ti].isolation_level == a.txs[ti].isolation_level,
        b.txs[ti].in_progress == a.txs[ti].in_progress,
        forall|i: int| 0 <= i < a.txs.len() && i != ti ==> b.txs[i] == a.txs[i],
    ensures
        b.inv(),
        a.evolves_to(b),
{
    assert(b.ids_in_order());
    assert(b.levels_uniform());
    assert(b.snapshots_earlier());
}

/// Ending the versions visible to a transaction of a snapshot level keeps
/// each version ended by its creator or a later transaction.
proof fn lemma_stamp_ordered(a: DbView, id: u64, key: Seq<char>)
    requires
        a.inv(),
        a.is_active(id),
        is_snapshot_level(a.default_isolation),
    ensures
        forall|j: int|
            #![trigger stamp(a.tx(id), a.chain(key), a.txs)[j]]
            0 <= j < a.chain(key).len() ==> (stamp(a.tx(id), a.chain(key), a.txs)[j].tx_end == 0
                || stamp(a.tx(id), a.chain(key), a.txs)[j].tx_start <= stamp(
                a.tx(id),
                a.chain(key),
                a.txs,
            )[j].tx_end),
{
    let t = a.tx(id);
    assert(a.txs[id - 1].isolation_level == a.default_isolation);
    assert forall|j: int| 0 <= j < a.chain(key).len() implies (stamp(t, a.chain(key), a.txs)[j].tx_end == 0
        || stamp(t, a.chain(key), a.txs)[j].tx_start <= stamp(t, a.chain(key), a.txs)[j].tx_end) by {
        assert(a.store.contains_key(key));
        assert(a.store[key][j].tx_end == 0 || a.store[key][j].tx_start <= a.store[key][j].tx_end);
    }
}

/// Replacing the chain of one key by a chain of ordered versions keeps
/// every chain ordered.
proof fn lemma_replace_chain_ordered(a: DbView, key: Seq<char>, c: Seq<VersionView>)
    requires
        a.versions_ordered(),
        forall|j: int| 0 <= j < c.len() ==> (#[trigger] c[j]).tx_end == 0 || c[j].tx_start <= c[j].tx_end,
    ensures
        (DbView { store: a.store.insert(key, c), ..a }).versions_ordered(),
{
    let b = DbView { store: a.store.insert(key, c), ..a };
    assert forall|k: Seq<char>, j: int| b.store.contains_key(k) && 0 <= j < b.store[k].len() implies (
    #[trigger] b.store[k][j]).tx_end == 0 || b.store[k][j].tx_start <= b.store[k][j].tx_end by {
        if k == key {
            assert(b.store[k][j] == c[j]);
        } else {
            assert(b.store[k][j] == a.store[k][j]);
        }
    }
}

impl Database {
    /// Writes `value` under `key` within transaction `transaction_id`: the
    /// versions visible to it are ended by it, a live version is appended,
    /// and the key joins its writeset.
    pub fn set(&mut self, transaction_id: u64, key: &str, value: &str)
        requires
            old(self).wf(),
            old(self)@.is_active(transaction_id),
        ensures
            final(self).wf(),
            final(self)@ == old(self)@.after_set(transaction_id, key@, value@),
            old(self)@.evolves_to(final(self)@),
    {
        let ghost a = self@;
        let ti = (transaction_id - 1) as usize;
        assert(a.tx(transaction_id) == self.transactions@[ti as int]@);
        let k = key.to_owned();
        let ghost new_chain = stamp(a.tx(transaction_id), a.chain(key@), a.txs).push(
            VersionView { tx_start: transaction_id, tx_end: 0, value: value@ },
        );
        match find_key(&self.keys, &k) {
            Some(ki) => {
                proof { lemma_store_at(self.keys@, self.chains@, ki as int); }
                let ghost old_chains = self.chains@;
                stamp_chain(&mut self.chains[ki], &self.transactions[ti], &self.transactions);
                self.chains[ki].push(Value::new(transaction_id, value.to_owned()));
                proof {
                    assert(chain_view(self.chains@[ki as int]) =~= new_chain);
                    assert(self.chains@ == old_chains.update(ki as int, self.chains@[ki as int]));
                    lemma_store_update(self.keys@, old_chains, ki as int, self.chains@[ki as int]);
                }
            },
            None => {
                proof { lemma_store_missing(self.keys@, self.chains@, key@); }
                let mut c: Vec<Value> = Vec::new();
                c.push(Value::new(transaction_id, value.to_owned()));
                proof {
                    assert(chain_view(c) =~= new_chain);
                    lemma_store_push(self.keys@, self.chains@, k, c);
                }
                self.keys.push(k.clone());
                self.chains.push(c);
            },
        }
        let ghost mid = self@;
        assert(mid.store == a.store.insert(key@, new_chain));
        self.transactions[ti].writeset_insert(k);
        proof {
            assert(tx_views(self.transactions@) =~= mid.txs.update(ti as int, self.transactions@[ti as int]@));
            assert(self@ =~= a.after_set(transaction_id, key@, value@));
            if is_snapshot_level(a.default_isolation) {
                lemma_stamp_ordered(a, transaction_id, key@);
                assert forall|j: int| 0 <= j < new_chain.len() implies (#[trigger] new_chain[j]).tx_end == 0
                    || new_chain[j].tx_start <= new_chain[j].tx_end by {
                    if j < new_chain.len() - 1 {
                        assert(new_chain[j] == stamp(a.tx(transaction_id), a.chain(key@), a.txs)[j]);
                    }
                }
                lemma_replace_chain_ordered(a, key@, new_chain);
            }
            assert(mid.inv());
            lemma_active_change_keeps_inv(mid, self@, ti as int);
        }
    }

    /// Deletes `key` within transaction `transaction_id`: the versions
    /// visible to it are ended by it and the key joins its writeset.
    pub fn delete(&mut self, transaction_id: u64, key: &str)
        requires
            old(self).wf(),
            old(self)@.is_active(transaction_id),
        ensures
            final(self).wf(),
            final(self)@ == old(self)@.after_delete(transaction_id, key@),
            old(self)@.evolves_to(final(self)@),
    {
        let ghost a = self@;
        let ti = (transaction_id - 1) as usize;
        assert(a.tx(transaction_id) == self.transactions@[ti as int]@);
        let k = key.to_owned();
        let ghost new_chain = stamp(a.tx(transaction_id), a.chain(key@), a.txs);
        match find_key(&self.keys, &k) {
            Some(ki) => {
                proof { lemma_store_at(self.keys@, self.chains@, ki as int); }
                let ghost old_chains = self.chains@;
                stamp_chain(&mut self.chains[ki], &self.transactions[ti], &self.transactions);
                proof {
                    assert(self.chains@ == old_chains.update(ki as int, self.chains@[ki as int]));
                    lemma_store_update(self.keys@, old_chains, ki as int, self.chains@[ki as int]);
                }
            },
            None => {
                proof { lemma_store_missing(self.keys@, self.chains@, key@); }
            },
        }
        let ghost mid = self@;
        self.transactions[ti].writeset_insert(k);
        proof {
            assert(tx_views(self.transactions@) =~= mid.txs.update(ti as int, self.transactions@[ti as int]@));
            assert(self@ =~= a.after_delete(transaction_id, key@));
            if is_snapshot_level(a.default_isolation) && a.store.contains_key(key@) {
                lemma_stamp_ordered(a, transaction_id, key@);
                assert forall|j: int| 0 <= j < new_chain.len() implies (#[trigger] new_chain[j]).tx_end == 0
                    || new_chain[j].tx_start <= new_chain[j].tx_end by {
                }
                lemma_replace_chain_ordered(a, key@, new_chain);
            }
            assert(mid.inv());
            lemma_active_change_keeps_inv(mid, self@, ti as int);
        }
    }
}

/// Whether `u` is a peer of `t` for the commit check.
fn is_concurrent(t: &Transaction, u: &Transaction) -> (r: bool)
    ensures
        r == concurrent(t@, u@),
{
    u.id != t.id && (contains_id(&t.in_progress, u.id) || t.id < u.id)
}

/// "transaction <id>" followed by `suffix`.
pub(crate) fn transaction_message(id: u64, suffix: &str) -> (r: String)
    ensures
        r@ == tx_message(id, suffix@),
{
    let mut s = "transaction ".to_owned();
    let digits = decimal_string(id);
    s.append(digits.as_str());
    s.append(suffix);
    s
}

impl Database {
    /// Whether a committed peer of transaction `ti + 1` wrote a key it wrote;
    /// peers are scanned by ascending id.
    fn has_write_conflict(&self, ti: usize) -> (r: bool)
        requires
            self.wf(),
            ti < self.transactions.len(),
        ensures
            r == self@.write_conflict(self@.txs[ti as int]),
    {
        let t = &self.transactions[ti];
        let mut i: usize = 0;
        while i < self.transactions.len()
            invariant
                self.wf(),
                ti < self.transactions.len(),
                t@ == self@.txs[ti as int],
                0 <= i <= self.transactions.len(),
                forall|m: int|
                    0 <= m < i ==> !((#[trigger] self@.txs[m]).state == TransactionState::Committed
                        && concurrent(t@, self@.txs[m]) && !t@.writeset.disjoint(self@.txs[m].writeset)),
            decreases self.transactions.len() - i,
        {
            let u = &self.transactions[i];
            assert(self@.txs[i as int] == u@);
            if u.state == TransactionState::Committed && is_concurrent(t, u) && t.shares_writeset(u) {
                return true;
            }
            i = i + 1;
        }
        false
    }

    /// Whether a committed peer of transaction `ti + 1` wrote a key it read
    /// or read a key it wrote; peers are scanned by ascending id.
    fn has_read_conflict(&self, ti: usize) -> (r: bool)
        requires
            self.wf(),
            ti < self.transactions.len(),
        ensures
            r == self@.read_conflict(self@.txs[ti as int]),
    {
        let t = &self.transactions[ti];
        let mut i: usize = 0;
        while i < self.transactions.len()
            invariant
                self.wf(),
                ti < self.transactions.len(),
                t@ == self@.txs[ti as int],
                0 <= i <= self.transactions.len(),
                forall|m: int|
                    0 <= m < i ==> !((#[trigger] self@.txs[m]).state == TransactionState::Committed
                        && concurrent(t@, self@.txs[m]) && (!t@.readset.disjoint(self@.txs[m].writeset)
                        || !t@.writeset.disjoint(self@.txs[m].readset))),
            decreases self.transactions.len() - i,
        {
            let u = &self.transactions[i];
            assert(self@.txs[i as int] == u@);
            if u.state == TransactionState::Committed && is_concurrent(t, u) && (t.reads_writes_of(u)
                || u.reads_writes_of(t)) {
                return true;
            }
            i = i + 1;
        }
        false
    }

    /// Ends transaction `transaction_id` in `state`. A commit under Snapshot
    /// or Serializable fails with "write-write conflict" when a committed
    /// peer wrote a key it wrote, and a commit under Serializable fails with
    /// "read-write conflict" when a committed peer wrote a key it read or
    /// read a key it wrote; a failed commit leaves the transaction Aborted.
    /// An unknown or finished transaction is refused and nothing changes.
    pub fn complete(&mut self, transaction_id: u64, state: TransactionState) -> (r: Result<(), String>)
        requires
            old(self).wf(),
            state != TransactionState::InProgress,
        ensures
            final(self).wf(),
            unit_result(r) == old(self)@.complete_result(transaction_id, state),
            final(self)@ == old(self)@.after_complete(transaction_id, state),
            old(self)@.evolves_to(final(self)@),
    {
        let ghost a = self@;
        if transaction_id == 0 || transaction_id >= self.next_transaction_id {
            return Err(transaction_message(transaction_id, " not found"));
        }
        let ti = (transaction_id - 1) as usize;
        assert(a.tx(transaction_id) == self.transactions@[ti as int]@);
        if self.transactions[ti].state != TransactionState::InProgress {
            return Err(transaction_message(transaction_id, " is not in progress"));
        }
        let mut outcome = state;
        let mut r: Result<(), String> = Ok(());
        if state == TransactionState::Committed {
            let level = self.transactions[ti].isolation_level;
            if (level == IsolationLevel::Snapshot || level == IsolationLevel::Serializable)
                && self.has_write_conflict(ti) {
                outcome = TransactionState::Aborted;
                r = Err("write-write conflict".to_owned());
            } else if level == IsolationLevel::Serializable && self.has_read_conflict(ti) {
                outcome = TransactionState::Aborted;
                r = Err("read-write conflict".to_owned());
            }
        }
        self.transactions[ti].set_state(outcome);
        proof {
            assert(tx_views(self.transactions@) =~= a.txs.update(ti as int, self.transactions@[ti as int]@));
            assert(self@ =~= a.after_complete(transaction_id, state));
            lemma_complete_keeps_inv(a, transaction_id, state);
        }
        r
    }
}

/// Ending a transaction in progress keeps the invariant: a commit that
/// passes the check adds no committed pair that shares writes, or, under
/// Serializable, reads.
proof fn lemma_complete_keeps_inv(a: DbView, id: u64, state: TransactionState)
    requires
        a.inv(),
        a.is_active(id),
    ensures
        a.after_complete(id, state).inv(),
        a.evolves_to(a.after_complete(id, state)),
{
    let b = a.after_complete(id, state);
    let ti = id - 1;
    let t = a.txs[ti];
    assert(t.isolation_level == a.default_isolation);
    assert(b.ids_in_order());
    assert(b.levels_uniform());
    assert(b.snapshots_earlier());
    assert forall|i: int, j: int|
        0 <= i < b.txs.len() && 0 <= j < b.txs.len() && i != j && (#[trigger] b.txs[i]).state
            == TransactionState::Committed && (#[trigger] b.txs[j]).state == TransactionState::Committed
            && lifetimes_overlap(b.txs[i], b.txs[j]) implies ((a.default_isolation
        == IsolationLevel::Snapshot || a.default_isolation == IsolationLevel::Serializable)
        ==> b.txs[i].writeset.disjoint(b.txs[j].writeset)) && (a.default_isolation
        == IsolationLevel::Serializable ==> b.txs[i].readset.disjoint(b.txs[j].writeset)) by {
        if i == ti {
            let u = a.txs[j];
            assert(b.txs[j] == u);
            assert(u.id == j + 1);
            assert(concurrent(t, u));
            assert(!a.write_conflict(t) ==> t.writeset.disjoint(u.writeset));
            assert(!a.read_conflict(t) ==> t.readset.disjoint(u.writeset));
        } else if j == ti {
            let u = a.txs[i];
            assert(b.txs[i] == u);
            assert(u.id == i + 1);
            assert(concurrent(t, u));
            assert(!a.write_conflict(t) ==> t.writeset.disjoint(u.writeset));
            assert(!a.read_conflict(t) ==> t.writeset.disjoint(u.readset));
        } else {
            assert(b.txs[i] == a.txs[i]);
            assert(b.txs[j] == a.txs[j]);
        }
    }
}

/// A well-formed store satisfies the invariant of its view.
pub proof fn lemma_wf_inv(db: &Database)
    requires
        db.wf(),
    ensures
        db@.inv(),
{
}

impl Database {
    /// How many versions the chain of `key` holds.
    pub fn chain_len(&self, key: &str) -> (r: usize)
        requires
            self.wf(),
        ensures
            r == self@.chain(key@).len(),
    {
        let k = key.to_owned();
        match find_key(&self.keys, &k) {
            Some(ki) => {
                proof { lemma_store_at(self.keys@, self.chains@, ki as int); }
                self.chains[ki].len()
            },
            None => {
                proof { lemma_store_missing(self.keys@, self.chains@, key@); }
                0
            },
        }
    }
}

} // verus!
