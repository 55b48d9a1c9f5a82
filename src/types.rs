use vstd::prelude::*;

verus! {

/// Lifecycle state of a transaction.
#[derive(Clone, Copy, Debug, PartialEq, Eq, Structural)]
pub enum TransactionState {
    InProgress,
    Aborted,
    Committed,
}

/// The isolation levels the store can run a transaction under.
#[derive(Clone, Copy, Debug, PartialEq, Eq, Structural)]
pub enum IsolationLevel {
    ReadUncommitted,
    ReadCommitted,
    RepeatableRead,
    Snapshot,
    Serializable,
}

/// True of the three levels that read from a snapshot fixed at begin.
pub open spec fn is_snapshot_level(level: IsolationLevel) -> bool {
    level == IsolationLevel::RepeatableRead || level == IsolationLevel::Snapshot
        || level == IsolationLevel::Serializable
}

/// Mathematical form of one version of a key.
pub struct VersionView {
    pub tx_start: u64,
    pub tx_end: u64,
    pub value: Seq<char>,
}

/// One historical value of a key: created by `tx_start_id`, overwritten or
/// deleted by `tx_end_id` (0 while the version is live).
pub struct Value {
    pub tx_start_id: u64,
    pub tx_end_id: u64,
    pub value: String,
}

impl View for Value {
    type V = VersionView;

    open spec fn view(&self) -> VersionView {
        VersionView { tx_start: self.tx_start_id, tx_end: self.tx_end_id, value: self.value@ }
    }
}

impl Value {
    /// A live version written by `tx_start_id`.
    pub fn new(tx_start_id: u64, value: String) -> (r: Self)
        ensures
            r@ == (VersionView { tx_start: tx_start_id, tx_end: 0, value: value@ }),
    {
        Value { tx_start_id, tx_end_id: 0, value }
    }
}

/// Mathematical form of a transaction record.
pub struct TransactionView {
    pub id: u64,
    pub isolation_level: IsolationLevel,
    pub state: TransactionState,
    pub in_progress: Set<u64>,
    pub writeset: Set<Seq<char>>,
    pub readset: Set<Seq<char>>,
}

/// The keys held by a list of strings, as a set.
pub open spec fn key_set(keys: Seq<String>) -> Set<Seq<char>> {
    Set::new(|k: Seq<char>| exists|i: int| 0 <= i < keys.len() && #[trigger] keys[i]@ == k)
}

/// A transaction record: its identity, isolation level, state, the ids that
/// were in progress when it began, and the keys it wrote and read.
pub struct Transaction {
    pub isolation_level: IsolationLevel,
    pub id: u64,
    pub state: TransactionState,
    pub in_progress: Vec<u64>,
    pub writeset: Vec<String>,
    pub readset: Vec<String>,
}

impl View for Transaction {
    type V = TransactionView;

    open spec fn view(&self) -> TransactionView {
        TransactionView {
            id: self.id,
            isolation_level: self.isolation_level,
            state: self.state,
            in_progress: self.in_progress@.to_set(),
            writeset: key_set(self.writeset@),
            readset: key_set(self.readset@),
        }
    }
}

/// Whether `key` is among `keys`.
fn holds_key(keys: &Vec<String>, key: &String) -> (r: bool)
    ensures
        r == key_set(keys@).contains(key@),
{
    let mut i: usize = 0;
    while i < keys.len()
        invariant
            0 <= i <= keys.len(),
            forall|j: int| 0 <= j < i ==> keys@[j]@ != key@,
        decreases keys.len() - i,
    {
        if keys[i] == *key {
            assert(keys@[i as int]@ == key@);
            return true;
        }
        i = i + 1;
    }
    false
}

/// Adds `key` to `keys` unless it is there already.
fn add_key(keys: &mut Vec<String>, key: String)
    ensures
        key_set(final(keys)@) == key_set(old(keys)@).insert(key@),
{
    if !holds_key(keys, &key) {
        let ghost k = key@;
        keys.push(key);
        assert(key_set(keys@) =~= key_set(old(keys)@).insert(k)) by {
            assert(keys@[keys@.len() - 1]@ == k);
            assert forall|s: Seq<char>| key_set(old(keys)@).contains(s) implies #[trigger] key_set(
                keys@,
            ).contains(s) by {
                let i = choose|i: int| 0 <= i < old(keys)@.len() && #[trigger] old(keys)@[i]@ == s;
                assert(keys@[i]@ == s);
            }
        }
    } else {
        assert(key_set(keys@) =~= key_set(old(keys)@).insert(key@));
    }
}

/// Whether some key is in both lists.
fn lists_overlap(a: &Vec<String>, b: &Vec<String>) -> (r: bool)
    ensures
        r == !key_set(a@).disjoint(key_set(b@)),
{
    let mut i: usize = 0;
    while i < a.len()
        invariant
            0 <= i <= a.len(),
            forall|j: int| 0 <= j < i ==> !key_set(b@).contains(#[trigger] a@[j]@),
        decreases a.len() - i,
    {
        if holds_key(b, &a[i]) {
            assert(key_set(a@).contains(a@[i as int]@));
            return true;
        }
        i = i + 1;
    }
    assert forall|k: Seq<char>| key_set(a@).contains(k) implies !key_set(b@).contains(k) by {
        let j = choose|j: int| 0 <= j < a@.len() && #[trigger] a@[j]@ == k;
    }
    false
}

/// Whether `id` is among `ids`.
pub(crate) fn contains_id(ids: &Vec<u64>, id: u64) -> (r: bool)
    ensures
        r == ids@.to_set().contains(id),
{
    let mut i: usize = 0;
    while i < ids.len()
        invariant
            0 <= i <= ids.len(),
            forall|j: int| 0 <= j < i ==> ids@[j] != id,
        decreases ids.len() - i,
    {
        if ids[i] == id {
            assert(ids@.contains(id));
            return true;
        }
        i = i + 1;
    }
    assert(!ids@.contains(id));
    false
}

impl Transaction {
    /// A fresh record in state InProgress with empty read and write sets.
    pub fn new(id: u64, isolation_level: IsolationLevel, in_progress: Vec<u64>) -> (r: Self)
        ensures
            r@ == (TransactionView {
                id,
                isolation_level,
                state: TransactionState::InProgress,
                in_progress: in_progress@.to_set(),
                writeset: Set::empty(),
                readset: Set::empty(),
            }),
            r.in_progress@ == in_progress@,
    {
        let r = Transaction {
            isolation_level,
            id,
            state: TransactionState::InProgress,
            in_progress,
            writeset: Vec::new(),
            readset: Vec::new(),
        };
        assert(key_set(r.writeset@) =~= Set::empty());
        assert(key_set(r.readset@) =~= Set::empty());
        r
    }

    pub fn set_state(&mut self, state: TransactionState)
        ensures
            final(self)@ == (TransactionView { state, ..old(self)@ }),
            final(self).in_progress@ == old(self).in_progress@,
    {
        self.state = state;
    }

    /// Records `key` as read.
    pub fn readset_insert(&mut self, key: String)
        ensures
            final(self)@ == (TransactionView { readset: old(self)@.readset.insert(key@), ..old(self)@ }),
            final(self).in_progress@ == old(self).in_progress@,
    {
        add_key(&mut self.readset, key);
    }

    /// Records `key` as written.
    pub fn writeset_insert(&mut self, key: String)
        ensures
            final(self)@ == (TransactionView { writeset: old(self)@.writeset.insert(key@), ..old(self)@ }),
            final(self).in_progress@ == old(self).in_progress@,
    {
        add_key(&mut self.writeset, key);
    }

    /// Whether the two transactions wrote a common key.
    pub fn shares_writeset(&self, other: &Transaction) -> (r: bool)
        ensures
            r == !self@.writeset.disjoint(other@.writeset),
    {
        lists_overlap(&self.writeset, &other.writeset)
    }

    /// Whether a key read by `self` was written by `other`.
    pub fn reads_writes_of(&self, other: &Transaction) -> (r: bool)
        ensures
            r == !self@.readset.disjoint(other@.writeset),
    {
        lists_overlap(&self.readset, &other.writeset)
    }
}

} // verus!
