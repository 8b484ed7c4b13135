use vstd::prelude::*;

use crate::key::{copy_key, key_type_of, lex_lt, utf8, Key, KeyType, RecV};
use crate::lock::{blocked, has_lock, holds_id, Grant, Lock, LockTable};
use crate::store::{has_key, has_next, is_next, Store};
use crate::{ErrCode, Payload};

verus! {

/// An undo record: a mutation made under a transaction.
struct Undo {
    index: u64,
    key: Key,
    payload: String,
    inserted: bool,
}

struct TxnEntry {
    id: u64,
    thread: u64,
    undo: Vec<Undo>,
}

struct IndexEntry {
    id: u64,
    name: String,
    key_type: KeyType,
    store: Store,
    handles: Vec<u64>,
}

/// The catalog of named indexes, the live transactions and their locks.
pub struct Database {
    indexes: Vec<IndexEntry>,
    txns: Vec<TxnEntry>,
    table: LockTable,
    next_id: u64,
}

/// The scan position of one handle in one scope (a transaction, or none).
struct Cursor {
    scope: Option<u64>,
    pos: Option<(Key, String)>,
}

/// An open handle on an index, with a scan position for each scope it is used in.
pub struct IdxState {
    index: u64,
    handle: u64,
    cursors: Vec<Cursor>,
}

/// A transaction handle.
pub struct TxnState {
    id: u64,
}

impl TxnState {
    pub closed spec fn id(&self) -> u64 {
        self.id
    }
}

/// An undo entry as a value: the index, the record, and whether it was inserted.
pub type UndoV = (u64, RecV, bool);

spec fn undo_view(u: &Undo) -> UndoV {
    (u.index, (u.key@, utf8(u.payload@)), u.inserted)
}

/// `y` is a record of index `x` once the changes of `log` are undone, newest first,
/// on the records of `db`.
pub open spec fn undone(db: &Database, log: Seq<UndoV>, x: u64, y: RecV) -> bool
    decreases log.len(),
{
    if log.len() == 0 {
        db.records(x).contains(y)
    } else {
        let u = log[0];
        let rest = undone(db, log.drop_first(), x, y);
        if u.0 != x {
            rest
        } else if u.2 {
            rest && y != u.1
        } else {
            rest || y == u.1
        }
    }
}

pub open spec fn pos_rec(p: Option<(Key, String)>) -> Option<RecV> {
    match p {
        None => None,
        Some((k, s)) => Some((k@, utf8(s@))),
    }
}

impl IdxState {
    pub closed spec fn index_id(&self) -> u64 {
        self.index
    }

    pub closed spec fn handle_id(&self) -> u64 {
        self.handle
    }

    /// Every transaction the handle has a cursor for has an id below `n`.
    pub closed spec fn scopes_below(&self, n: u64) -> bool {
        forall|i: int| 0 <= i < self.cursors@.len() && (#[trigger] self.cursors@[i]).scope is Some
            ==> self.cursors@[i].scope->0 < n
    }

    /// Entry `i` is the first cursor of `scope`.
    pub closed spec fn first_cursor(&self, scope: Option<u64>, i: int) -> bool {
        &&& 0 <= i < self.cursors@.len()
        &&& self.cursors@[i].scope == scope
        &&& forall|j: int| 0 <= j < i ==> (#[trigger] self.cursors@[j]).scope != scope
    }

    /// The last record handed out in `scope`, or none when the scope has not scanned yet:
    /// where a call in `scope` goes on from.
    pub closed spec fn start(&self, scope: Option<u64>) -> Option<RecV> {
        if exists|i: int| self.first_cursor(scope, i) {
            pos_rec(self.cursors@[choose|i: int| self.first_cursor(scope, i)].pos)
        } else {
            None
        }
    }

    /// The index of the first cursor of `scope`.
    fn find_cursor(&self, scope: Option<u64>) -> (r: Option<usize>)
        ensures
            r is Some ==> self.first_cursor(scope, r->0 as int),
            r is None ==> self.start(scope) is None,
            r is None ==> forall|j: int| 0 <= j < self.cursors@.len() ==> (#[trigger] self.cursors@[j]).scope != scope,
            r is Some ==> self.start(scope) == pos_rec(self.cursors@[r->0 as int].pos),
    {
        let mut i: usize = 0;
        while i < self.cursors.len()
            invariant
                i <= self.cursors@.len(),
                forall|j: int| 0 <= j < i ==> (#[trigger] self.cursors@[j]).scope != scope,
            decreases self.cursors@.len() - i,
        {
            if same_scope(self.cursors[i].scope, scope) {
                proof {
                    assert(self.first_cursor(scope, i as int));
                    let k = choose|k: int| self.first_cursor(scope, k);
                    if k < i {
                        assert(self.cursors@[k].scope != scope);
                    } else if k > i {
                        assert(self.cursors@[i as int].scope != scope);
                    }
                }
                return Some(i);
            }
            i = i + 1;
        }
        None
    }

    /// Makes `pos` the position of `scope`.
    fn set_cursor(&mut self, scope: Option<u64>, pos: Option<(Key, String)>)
        ensures
            final(self).start(scope) == pos_rec(pos),
            forall|n: u64| old(self).scopes_below(n) && (scope is Some ==> scope->0 < n) ==> #[trigger] final(self).scopes_below(n),
            final(self).index == old(self).index,
            final(self).handle == old(self).handle,
    {
        let ghost p = pos_rec(pos);
        match self.find_cursor(scope) {
            Some(i) => {
                let ghost before = self.cursors@;
                self.cursors.set(i, Cursor { scope, pos });
                proof {
                    assert(self.first_cursor(scope, i as int)) by {
                        assert forall|j: int| 0 <= j < i implies (#[trigger] self.cursors@[j]).scope != scope by {
                            assert(before[j].scope != scope);
                        }
                    }
                    let k = choose|k: int| self.first_cursor(scope, k);
                    if k < i {
                        assert(self.cursors@[k].scope != scope);
                    } else if k > i {
                        assert(self.cursors@[i as int].scope != scope);
                    }
                }
            },
            None => {
                if scope.is_some() {
                    // a handle serves one thread, which has one live transaction at a time:
                    // the cursors of its earlier transactions are done with
                    let mut kept: Vec<Cursor> = Vec::new();
                    if let Some(j) = self.find_cursor(None) {
                        kept.push(self.cursors.remove(j));
                    }
                    self.cursors = kept;
                }
                let ghost before = self.cursors@;
                self.cursors.push(Cursor { scope, pos });
                proof {
                    let n = before.len() as int;
                    assert forall|j: int| 0 <= j < n implies (#[trigger] self.cursors@[j]).scope != scope by {
                        assert(before[j] == self.cursors@[j]);
                        if scope is Some {
                            assert(before.len() <= 1);
                            assert(before[j].scope is None);
                        }
                    }
                    assert(self.first_cursor(scope, n));
                    let k = choose|k: int| self.first_cursor(scope, k);
                    if k < n {
                        assert(self.cursors@[k].scope != scope);
                    }
                }
            },
        }
    }
}

/// A transaction's exclusive lock on an index keeps every other call off it: neither
/// another transaction nor a call without one may lock it in any mode.
pub proof fn lemma_exclusive_excludes(db: &Database, t1: u64, scope: Option<u64>, id: u64, exclusive: bool)
    requires
        db.wf(),
        db.holds(t1, id, true),
        scope != Some(t1),
    ensures
        !db.may_lock(scope, id, exclusive),
{
    let i = choose|i: int| 0 <= i < db.table.locks@.len() && crate::lock::covers(#[trigger] db.table.locks@[i], t1, id, true);
    assert(crate::lock::conflicts(db.table.locks@[i], scope, id, exclusive));
    if let Some(t) = scope {
        if has_lock(db.table.locks@, t, id, exclusive) {
            let j = choose|j: int| 0 <= j < db.table.locks@.len() && crate::lock::covers(#[trigger] db.table.locks@[j], t, id, exclusive);
            assert(db.table.locks@[i].txn != db.table.locks@[j].txn);
        }
    }
}

/// A transaction begun after the handle's last use has no cursor on it yet: its scan
/// starts afresh, at the least record.
pub proof fn lemma_new_scope_starts_fresh(h: &IdxState, n: u64, t: u64)
    requires
        h.scopes_below(n),
        n <= t,
    ensures
        h.start(Some(t)) is None,
{
    assert forall|i: int| !h.first_cursor(Some(t), i) by {
        if 0 <= i < h.cursors@.len() && h.cursors@[i].scope == Some(t) {
            assert(h.cursors@[i].scope->0 < n);
        }
    }
}

fn same_scope(a: Option<u64>, b: Option<u64>) -> (r: bool)
    ensures
        r == (a == b),
{
    match (a, b) {
        (None, None) => true,
        (Some(x), Some(y)) => x == y,
        _ => false,
    }
}

fn scope_id(t: Option<&TxnState>) -> (r: Option<u64>)
    ensures
        r == scope_of(t),
{
    match t {
        None => None,
        Some(t) => Some(t.id),
    }
}

pub open spec fn scope_of(t: Option<&TxnState>) -> Option<u64> {
    match t {
        None => None,
        Some(t) => Some(t.id()),
    }
}

impl Database {
    pub closed spec fn wf(&self) -> bool {
        &&& forall|i: int| 0 <= i < self.indexes@.len() ==> (#[trigger] self.indexes@[i]).store.wf()
        &&& forall|i: int, j: int|
            0 <= i < j < self.indexes@.len() ==> #[trigger] self.indexes@[i].id != #[trigger] self.indexes@[j].id
                && self.indexes@[i].name@ != self.indexes@[j].name@
        &&& forall|i: int| 0 <= i < self.indexes@.len() ==> (#[trigger] self.indexes@[i]).id < self.next_id
        &&& forall|i: int| 0 <= i < self.txns@.len() ==> (#[trigger] self.txns@[i]).id < self.next_id
        &&& forall|i: int, j: int|
            0 <= i < j < self.txns@.len() ==> #[trigger] self.txns@[i].id != #[trigger] self.txns@[j].id
        &&& forall|i: int| 0 <= i < self.table.locks@.len() ==> (#[trigger] self.table.locks@[i]).txn < self.next_id
        &&& forall|i: int, k: int| 0 <= i < self.indexes@.len() && 0 <= k < self.indexes@[i].handles@.len()
            ==> #[trigger] self.indexes@[i].handles@[k] < self.next_id
        &&& forall|i: int, j: int|
            0 <= i < j < self.txns@.len() ==> #[trigger] self.txns@[i].thread != #[trigger] self.txns@[j].thread
        &&& forall|i: int| 0 <= i < self.table.locks@.len() ==> self.active((#[trigger] self.table.locks@[i]).txn)
        &&& forall|i: int, j: int|
            0 <= i < self.table.locks@.len() && 0 <= j < self.table.locks@.len() && #[trigger] self.table.locks@[i].txn
                != #[trigger] self.table.locks@[j].txn && self.table.locks@[i].index == self.table.locks@[j].index
                ==> !self.table.locks@[i].exclusive && !self.table.locks@[j].exclusive
    }

    /// An index of this name exists.
    pub closed spec fn has_name(&self, name: Seq<char>) -> bool {
        exists|i: int| 0 <= i < self.indexes@.len() && (#[trigger] self.indexes@[i]).name@ == name
    }

    pub closed spec fn has_index(&self, id: u64) -> bool {
        exists|i: int| 0 <= i < self.indexes@.len() && (#[trigger] self.indexes@[i]).id == id
    }

    /// The id of the index of this name.
    pub closed spec fn id_of(&self, name: Seq<char>) -> u64 {
        self.indexes@[choose|i: int| 0 <= i < self.indexes@.len() && (#[trigger] self.indexes@[i]).name@ == name].id
    }

    /// The records of the index with this id, in ascending order.
    pub closed spec fn records(&self, id: u64) -> Seq<RecV> {
        self.indexes@[choose|i: int| 0 <= i < self.indexes@.len() && (#[trigger] self.indexes@[i]).id == id].store@
    }

    /// The key type of the index with this id.
    pub closed spec fn key_type(&self, id: u64) -> KeyType {
        self.indexes@[choose|i: int| 0 <= i < self.indexes@.len() && (#[trigger] self.indexes@[i]).id == id].key_type
    }

    /// The handle is open on an index of this catalog.
    pub closed spec fn is_open(&self, h: &IdxState) -> bool {
        exists|i: int| 0 <= i < self.indexes@.len() && (#[trigger] self.indexes@[i]).id == h.index
            && self.indexes@[i].handles@.contains(h.handle)
    }

    /// Some handle on the index of this name is open.
    pub closed spec fn in_use(&self, name: Seq<char>) -> bool {
        exists|i: int| 0 <= i < self.indexes@.len() && (#[trigger] self.indexes@[i]).name@ == name
            && self.indexes@[i].handles@.len() > 0
    }

    /// The transaction is live.
    pub closed spec fn active(&self, t: u64) -> bool {
        exists|i: int| 0 <= i < self.txns@.len() && (#[trigger] self.txns@[i]).id == t
    }

    /// The thread has a live transaction.
    pub closed spec fn busy(&self, thread: u64) -> bool {
        exists|i: int| 0 <= i < self.txns@.len() && (#[trigger] self.txns@[i]).thread == thread
    }

    /// Every id handed out so far is below this bound.
    pub closed spec fn bound(&self) -> u64 {
        self.next_id
    }

    /// Fresh ids are left for a new index, handle or transaction.
    pub open spec fn ids_left(&self) -> bool {
        self.bound() < u64::MAX
    }

    /// The same indexes, under the same names, with the same key types.
    pub open spec fn keeps_indexes(&self, o: &Database) -> bool {
        &&& forall|x: u64| #[trigger] self.has_index(x) <==> o.has_index(x)
        &&& forall|x: u64| o.has_index(x) ==> #[trigger] self.key_type(x) == o.key_type(x)
        &&& forall|n: Seq<char>| #[trigger] self.has_name(n) <==> o.has_name(n)
        &&& forall|n: Seq<char>| o.has_name(n) ==> #[trigger] self.id_of(n) == o.id_of(n)
    }

    /// The same handles are open.
    pub open spec fn keeps_handles(&self, o: &Database) -> bool {
        forall|h: &IdxState| #[trigger] self.is_open(h) <==> o.is_open(h)
    }

    /// Every call may take the same locks as before.
    pub open spec fn same_locks(&self, o: &Database) -> bool {
        forall|s: Option<u64>, x: u64, e: bool| #[trigger] self.may_lock(s, x, e) == o.may_lock(s, x, e)
    }

    /// The same transactions are live, for the same threads.
    pub open spec fn keeps_txns(&self, o: &Database) -> bool {
        &&& forall|t: u64| #[trigger] self.active(t) <==> o.active(t)
        &&& forall|t: u64| #[trigger] self.busy(t) <==> o.busy(t)
        &&& forall|t: u64| o.active(t) ==> #[trigger] self.owner(t) == o.owner(t)
    }

    /// Every index but `id` holds the same records.
    pub open spec fn keeps_records_except(&self, o: &Database, id: u64) -> bool {
        forall|x: u64| o.has_index(x) && x != id ==> #[trigger] self.records(x) == o.records(x)
    }

    /// What every record call leaves behind, whatever it returned: the catalog and the
    /// handles as they were; a deadlock only inside a transaction, which it ends with its
    /// locks released; otherwise the same live transactions; and after a wait, nothing
    /// changed that another call could see.
    pub open spec fn call_outcome(&self, o: &Database, scope: Option<u64>, deadlock: bool, wait: bool) -> bool {
        &&& self.keeps_indexes(o)
        &&& self.keeps_handles(o)
        &&& self.bound() == o.bound()
        &&& (scope is None ==> !deadlock)
        &&& (deadlock ==> !self.active(scope->0) && self.lock_free(scope->0))
        &&& (!deadlock ==> self.keeps_txns(o))
        &&& (wait ==> self.same_locks(o) && forall|x: u64| o.has_index(x) ==> #[trigger] self.records(x) == o.records(x))
        &&& forall|t: u64, x: u64, e: bool| #[trigger] o.holds(t, x, e) && !(deadlock && scope == Some(t)) ==> self.holds(t, x, e)
    }

    /// After a call in `scope` that went through: a transaction keeps the lock it took,
    /// and a call without one leaves the locks as they were.
    pub open spec fn lock_after(&self, o: &Database, scope: Option<u64>, id: u64, exclusive: bool) -> bool {
        &&& (scope is Some ==> self.holds(scope->0, id, exclusive))
        &&& (scope is None ==> self.same_locks(o))
    }

    /// Every index holds what `o` held with the changes of transaction `t` undone.
    pub open spec fn undid(&self, o: &Database, t: u64) -> bool {
        forall|x: u64, y: RecV| o.has_index(x) ==> (#[trigger] self.records(x).contains(y) <==> undone(o, o.log(t), x, y))
    }

    /// The changes made under the live transaction `t`, oldest first.
    pub closed spec fn log(&self, t: u64) -> Seq<UndoV> {
        self.txns@[choose|i: int| 0 <= i < self.txns@.len() && (#[trigger] self.txns@[i]).id == t].undo@.map_values(
            |u: Undo| undo_view(&u),
        )
    }

    /// The thread that began the live transaction `t`.
    pub closed spec fn owner(&self, t: u64) -> u64 {
        self.txns@[choose|i: int| 0 <= i < self.txns@.len() && (#[trigger] self.txns@[i]).id == t].thread
    }

    /// A call in `scope` may take a lock of this mode on the index now.
    pub closed spec fn may_lock(&self, scope: Option<u64>, id: u64, exclusive: bool) -> bool {
        match scope {
            None => !blocked(self.table.locks@, None, id, exclusive),
            Some(t) => has_lock(self.table.locks@, t, id, exclusive) || !blocked(
                self.table.locks@,
                Some(t),
                id,
                exclusive,
            ),
        }
    }

    /// Transaction `t` holds a lock on the index at least as strong as the mode.
    pub closed spec fn holds(&self, t: u64, id: u64, exclusive: bool) -> bool {
        has_lock(self.table.locks@, t, id, exclusive)
    }

    /// If transaction `t` waited for this lock, the wait would close a cycle of waits.
    pub closed spec fn closes_cycle(&self, t: u64, id: u64, exclusive: bool) -> bool {
        crate::lock::closes_cycle(&self.table, t, id, exclusive)
    }

    /// The transaction holds no lock.
    pub closed spec fn lock_free(&self, t: u64) -> bool {
        forall|i: int| 0 <= i < self.table.locks@.len() ==> (#[trigger] self.table.locks@[i]).txn != t
    }

    /// An empty catalog.
    pub fn new() -> (r: Database)
        ensures
            r.wf(),
            forall|n: Seq<char>| !r.has_name(n),
            forall|t: u64| !r.active(t),
            forall|t: u64| !r.busy(t),
            forall|x: u64| !r.has_index(x),
            forall|s: Option<u64>, x: u64, e: bool| #[trigger] r.may_lock(s, x, e),
            r.bound() == 0,
    {
        let r = Database { indexes: Vec::new(), txns: Vec::new(), table: LockTable::new(), next_id: 0 };
        assert forall|s: Option<u64>, x: u64, e: bool| #[trigger] r.may_lock(s, x, e) by {}
        r
    }

    fn find_name(&self, name: &String) -> (r: Option<usize>)
        ensures
            r is None <==> !self.has_name(name@),
            r is Some ==> r->0 < self.indexes@.len() && self.indexes@[r->0 as int].name@ == name@,
    {
        let mut i: usize = 0;
        while i < self.indexes.len()
            invariant
                i <= self.indexes@.len(),
                forall|j: int| 0 <= j < i ==> (#[trigger] self.indexes@[j]).name@ != name@,
            decreases self.indexes@.len() - i,
        {
            if self.indexes[i].name == *name {
                return Some(i);
            }
            i = i + 1;
        }
        None
    }

    fn find_id(&self, id: u64) -> (r: Option<usize>)
        ensures
            r is None <==> !self.has_index(id),
            r is Some ==> r->0 < self.indexes@.len() && self.indexes@[r->0 as int].id == id,
    {
        let mut i: usize = 0;
        while i < self.indexes.len()
            invariant
                i <= self.indexes@.len(),
                forall|j: int| 0 <= j < i ==> (#[trigger] self.indexes@[j]).id != id,
            decreases self.indexes@.len() - i,
        {
            if self.indexes[i].id == id {
                return Some(i);
            }
            i = i + 1;
        }
        None
    }

    fn find_txn(&self, id: u64) -> (r: Option<usize>)
        ensures
            r is None <==> !self.active(id),
            r is Some ==> r->0 < self.txns@.len() && self.txns@[r->0 as int].id == id,
    {
        let mut i: usize = 0;
        while i < self.txns.len()
            invariant
                i <= self.txns@.len(),
                forall|j: int| 0 <= j < i ==> (#[trigger] self.txns@[j]).id != id,
            decreases self.txns@.len() - i,
        {
            if self.txns[i].id == id {
                return Some(i);
            }
            i = i + 1;
        }
        None
    }

    fn find_thread(&self, thread: u64) -> (r: bool)
        ensures
            r == self.busy(thread),
    {
        let mut i: usize = 0;
        while i < self.txns.len()
            invariant
                i <= self.txns@.len(),
                forall|j: int| 0 <= j < i ==> (#[trigger] self.txns@[j]).thread != thread,
            decreases self.txns@.len() - i,
        {
            if self.txns[i].thread == thread {
                return true;
            }
            i = i + 1;
        }
        false
    }

    /// Replacing entry `i` by one of the same id and name keeps the catalog well formed.
    proof fn lemma_update(old_db: &Database, db: &Database, i: int)
        requires
            old_db.wf(),
            0 <= i < old_db.indexes@.len(),
            db.indexes@.len() == old_db.indexes@.len(),
            forall|j: int| 0 <= j < db.indexes@.len() && j != i ==> db.indexes@[j] == old_db.indexes@[j],
            db.indexes@[i].id == old_db.indexes@[i].id,
            db.indexes@[i].name@ == old_db.indexes@[i].name@,
            db.indexes@[i].key_type == old_db.indexes@[i].key_type,
            db.indexes@[i].store.wf(),
            forall|k: int| 0 <= k < db.indexes@[i].handles@.len() ==> #[trigger] db.indexes@[i].handles@[k] < db.next_id,
            db.txns@ == old_db.txns@,
            db.table == old_db.table,
            db.next_id == old_db.next_id,
        ensures
            db.wf(),
            forall|id: u64| #[trigger] db.has_index(id) <==> old_db.has_index(id),
            forall|n: Seq<char>| #[trigger] db.has_name(n) <==> old_db.has_name(n),
            forall|n: Seq<char>| old_db.has_name(n) ==> #[trigger] db.id_of(n) == old_db.id_of(n),
            forall|id: u64| old_db.has_index(id) && id != db.indexes@[i].id ==> #[trigger] db.records(id) == old_db.records(id),
            forall|id: u64| old_db.has_index(id) ==> #[trigger] db.key_type(id) == old_db.key_type(id) || id == db.indexes@[i].id,
            forall|t: u64| #[trigger] db.active(t) <==> old_db.active(t),
            forall|t: u64| #[trigger] db.busy(t) <==> old_db.busy(t),
            db.ids_left() == old_db.ids_left(),
            db.records(db.indexes@[i].id) == db.indexes@[i].store@,
            db.keeps_indexes(old_db),
            db.keeps_txns(old_db),
            db.same_locks(old_db),
            db.keeps_records_except(old_db, db.indexes@[i].id),
            db.indexes@[i].handles@ == old_db.indexes@[i].handles@ ==> db.keeps_handles(old_db),
    {
        assert forall|a: int, b: int|
            0 <= a < b < db.indexes@.len() implies #[trigger] db.indexes@[a].id != #[trigger] db.indexes@[b].id
                && db.indexes@[a].name@ != db.indexes@[b].name@ by {
            assert(old_db.indexes@[a].id != old_db.indexes@[b].id);
        }
        assert forall|a: int| 0 <= a < db.indexes@.len() implies (#[trigger] db.indexes@[a]).store.wf() by {
            if a != i {
                assert(old_db.indexes@[a].store.wf());
            }
        }
        assert forall|a: int| 0 <= a < db.indexes@.len() implies (#[trigger] db.indexes@[a]).id < db.next_id by {
            assert(old_db.indexes@[a].id < db.next_id);
        }
        assert forall|a: int, k: int| 0 <= a < db.indexes@.len() && 0 <= k < db.indexes@[a].handles@.len()
            implies #[trigger] db.indexes@[a].handles@[k] < db.next_id by {
            if a != i {
                assert(db.indexes@[a] == old_db.indexes@[a]);
                assert(old_db.indexes@[a].handles@[k] < old_db.next_id);
            }
        }
        assert(db.wf());
        assert forall|id: u64| #[trigger] db.has_index(id) <==> old_db.has_index(id) by {
            if db.has_index(id) {
                let j = choose|j: int| 0 <= j < db.indexes@.len() && (#[trigger] db.indexes@[j]).id == id;
                assert(old_db.indexes@[j].id == id);
            }
            if old_db.has_index(id) {
                let j = choose|j: int| 0 <= j < old_db.indexes@.len() && (#[trigger] old_db.indexes@[j]).id == id;
                assert(db.indexes@[j].id == id);
            }
        }
        assert forall|n: Seq<char>| #[trigger] db.has_name(n) <==> old_db.has_name(n) by {
            if db.has_name(n) {
                let j = choose|j: int| 0 <= j < db.indexes@.len() && (#[trigger] db.indexes@[j]).name@ == n;
                assert(old_db.indexes@[j].name@ == n);
            }
            if old_db.has_name(n) {
                let j = choose|j: int| 0 <= j < old_db.indexes@.len() && (#[trigger] old_db.indexes@[j]).name@ == n;
                assert(db.indexes@[j].name@ == n);
            }
        }
        assert forall|n: Seq<char>| old_db.has_name(n) implies #[trigger] db.id_of(n) == old_db.id_of(n) by {
            let j = choose|j: int| 0 <= j < old_db.indexes@.len() && (#[trigger] old_db.indexes@[j]).name@ == n;
            old_db.lemma_unique_name(j);
            assert(db.indexes@[j].name@ == n);
            db.lemma_unique_name(j);
        }
        assert forall|id: u64| old_db.has_index(id) implies (id != db.indexes@[i].id ==> #[trigger] db.records(id) == old_db.records(id))
            && (db.key_type(id) == old_db.key_type(id) || id == db.indexes@[i].id) by {
            let j = choose|j: int| 0 <= j < old_db.indexes@.len() && (#[trigger] old_db.indexes@[j]).id == id;
            old_db.lemma_unique_id(j);
            assert(db.indexes@[j].id == id);
            db.lemma_unique_id(j);
        }
        db.lemma_unique_id(i);
        Database::lemma_same_txns(db, old_db);
        Database::lemma_same_locks(db, old_db);
        assert forall|id: u64| old_db.has_index(id) implies #[trigger] db.key_type(id) == old_db.key_type(id) by {
            let j = choose|j: int| 0 <= j < old_db.indexes@.len() && (#[trigger] old_db.indexes@[j]).id == id;
            old_db.lemma_unique_id(j);
            assert(db.indexes@[j].id == id);
            db.lemma_unique_id(j);
        }
        if db.indexes@[i].handles@ == old_db.indexes@[i].handles@ {
            assert forall|h: &IdxState| #[trigger] db.is_open(h) <==> old_db.is_open(h) by {
                if db.is_open(h) {
                    let j = choose|j: int| 0 <= j < db.indexes@.len() && (#[trigger] db.indexes@[j]).id == h.index
                        && db.indexes@[j].handles@.contains(h.handle);
                    assert(old_db.indexes@[j].id == h.index && old_db.indexes@[j].handles@.contains(h.handle));
                }
                if old_db.is_open(h) {
                    let j = choose|j: int| 0 <= j < old_db.indexes@.len() && (#[trigger] old_db.indexes@[j]).id == h.index
                        && old_db.indexes@[j].handles@.contains(h.handle);
                    assert(db.indexes@[j].id == h.index && db.indexes@[j].handles@.contains(h.handle));
                }
            }
        }
    }

    /// Undoes the mutations of an undo log, newest first.
    fn rollback(&mut self, undo: &Vec<Undo>)
        requires
            old(self).wf(),
        ensures
            forall|x: u64, y: RecV| old(self).has_index(x) ==> (#[trigger] final(self).records(x).contains(y) <==> undone(
                old(self),
                undo@.map_values(|u: Undo| undo_view(&u)),
                x,
                y,
            )),
            final(self).wf(),
            forall|n: Seq<char>| #[trigger] final(self).has_name(n) <==> old(self).has_name(n),
            forall|t: u64| #[trigger] final(self).active(t) <==> old(self).active(t),
            forall|t: u64| #[trigger] final(self).busy(t) <==> old(self).busy(t),
            final(self).table == old(self).table,
            final(self).next_id == old(self).next_id,
            final(self).keeps_indexes(old(self)),
            final(self).keeps_handles(old(self)),
            final(self).keeps_txns(old(self)),
    {
        let mut k: usize = undo.len();
        proof {
            Database::lemma_same_indexes(self, old(self));
            Database::lemma_same_txns(self, old(self));
            let uv = undo@.map_values(|u: Undo| undo_view(&u));
            assert(uv.subrange(k as int, undo@.len() as int).len() == 0);
        }
        while k > 0
            invariant
                self.wf(),
                k <= undo@.len(),
                forall|n: Seq<char>| #[trigger] self.has_name(n) <==> old(self).has_name(n),
                forall|t: u64| #[trigger] self.active(t) <==> old(self).active(t),
                forall|t: u64| #[trigger] self.busy(t) <==> old(self).busy(t),
                self.table == old(self).table,
                self.next_id == old(self).next_id,
                self.keeps_indexes(old(self)),
                self.keeps_handles(old(self)),
                self.keeps_txns(old(self)),
                k <= undo@.len(),
                forall|x: u64, y: RecV| old(self).has_index(x) ==> (#[trigger] self.records(x).contains(y) <==> undone(
                    old(self),
                    undo@.map_values(|u: Undo| undo_view(&u)).subrange(k as int, undo@.len() as int),
                    x,
                    y,
                )),
            decreases k,
        {
            let ghost uv = undo@.map_values(|u: Undo| undo_view(&u));
            let ghost pre = *self;
            k = k - 1;
            let u = &undo[k];
            proof {
                assert(uv.subrange(k as int, undo@.len() as int).drop_first() =~= uv.subrange(k + 1, undo@.len() as int));
                assert(uv.subrange(k as int, undo@.len() as int)[0] == undo_view(u));
            }
            if let Some(i) = self.find_id(u.index) {
                let ghost mid = *self;
                let mut e = self.indexes.remove(i);
                let ghost s0 = e.store@;
                if u.inserted {
                    let _ = e.store.delete_exact(&u.key, &u.payload);
                } else {
                    let _ = e.store.insert(copy_key(&u.key), u.payload.clone());
                }
                let ghost s1 = e.store@;
                self.indexes.insert(i, e);
                proof {
                    assert(self.indexes@[i as int].handles@ == mid.indexes@[i as int].handles@);
                    Database::lemma_update(&mid, self, i as int);
                    mid.lemma_unique_id(i as int);
                    assert forall|x: u64, y: RecV| old(self).has_index(x) implies (#[trigger] self.records(x).contains(y) <==> undone(
                        old(self),
                        uv.subrange(k as int, undo@.len() as int),
                        x,
                        y,
                    )) by {
                        assert(mid.has_index(x));
                        if x != u.index {
                            assert(self.records(x) == mid.records(x));
                        } else {
                            assert(self.records(x) == s1);
                            assert(mid.records(x) == s0);
                        }
                    }
                }
            } else {
                proof {
                    assert forall|x: u64, y: RecV| old(self).has_index(x) implies (#[trigger] self.records(x).contains(y) <==> undone(
                        old(self),
                        uv.subrange(k as int, undo@.len() as int),
                        x,
                        y,
                    )) by {
                        assert(self.has_index(x));
                        if x == u.index {
                            assert(false);
                        }
                    }
                }
            }
        }
        proof {
            let uv = undo@.map_values(|u: Undo| undo_view(&u));
            assert(uv.subrange(0, undo@.len() as int) =~= uv);
        }
    }

    /// Ends transaction `ti`: drops it, its locks and its waits; hands back its undo log.
    fn finish(&mut self, ti: usize) -> (r: Vec<Undo>)
        requires
            old(self).wf(),
            ti < old(self).txns@.len(),
        ensures
            final(self).wf(),
            !final(self).active(old(self).txns@[ti as int].id),
            final(self).lock_free(old(self).txns@[ti as int].id),
            !final(self).busy(old(self).txns@[ti as int].thread) || old(self).busy(old(self).txns@[ti as int].thread),
            forall|t: u64| #[trigger] final(self).active(t) <==> old(self).active(t) && t != old(self).txns@[ti as int].id,
            forall|t: u64| #[trigger] final(self).busy(t) <==> old(self).busy(t) && t != old(self).txns@[ti as int].thread,
            forall|t: u64| final(self).active(t) ==> #[trigger] final(self).owner(t) == old(self).owner(t),
            final(self).indexes == old(self).indexes,
            final(self).next_id == old(self).next_id,
            r@.map_values(|u: Undo| undo_view(&u)) == old(self).log(old(self).txns@[ti as int].id),
            forall|l: Lock| #[trigger] final(self).table.locks@.contains(l) <==> old(self).table.locks@.contains(l) && l.txn
                != old(self).txns@[ti as int].id,
    {
        proof {
            let k = choose|k: int| 0 <= k < self.txns@.len() && (#[trigger] self.txns@[k]).id == self.txns@[ti as int].id;
            if k < ti { assert(self.txns@[k].id != self.txns@[ti as int].id); }
            if k > ti { assert(self.txns@[ti as int].id != self.txns@[k].id); }
        }
        let ghost t0 = self.txns@;
        let e = self.txns.remove(ti);
        proof {
            assert(self.txns@ =~= t0.remove(ti as int));
            assert forall|a: int, b: int|
                0 <= a < b < self.txns@.len() implies #[trigger] self.txns@[a].id != #[trigger] self.txns@[b].id by {
                let a2 = if a < ti { a } else { a + 1 };
                let b2 = if b < ti { b } else { b + 1 };
                assert(t0[a2].id != t0[b2].id);
            }
            assert forall|a: int| 0 <= a < self.txns@.len() implies (#[trigger] self.txns@[a]).id < self.next_id by {
                let a2 = if a < ti { a } else { a + 1 };
                assert(t0[a2].id < self.next_id);
            }
            assert forall|t: u64| #[trigger] self.busy(t) <==> old(self).busy(t) && t != e.thread by {
                if self.busy(t) {
                    let j = choose|j: int| 0 <= j < self.txns@.len() && (#[trigger] self.txns@[j]).thread == t;
                    let j2 = if j < ti { j } else { j + 1 };
                    assert(t0[j2].thread == t);
                    if j2 < ti {
                        assert(t0[j2].thread != t0[ti as int].thread);
                    } else {
                        assert(t0[ti as int].thread != t0[j2].thread);
                    }
                }
                if old(self).busy(t) && t != e.thread {
                    let j = choose|j: int| 0 <= j < t0.len() && (#[trigger] t0[j]).thread == t;
                    let j2 = if j < ti { j } else { j - 1 };
                    assert(self.txns@[j2].thread == t);
                }
            }
            assert forall|t: u64| self.active(t) implies #[trigger] self.owner(t) == old(self).owner(t) by {
                let j = choose|j: int| 0 <= j < self.txns@.len() && (#[trigger] self.txns@[j]).id == t;
                let j2 = if j < ti { j } else { j + 1 };
                assert(t0[j2].id == t);
                let k = choose|k: int| 0 <= k < self.txns@.len() && (#[trigger] self.txns@[k]).id == t;
                let k2 = if k < ti { k } else { k + 1 };
                if k != j {
                    if k < j { assert(self.txns@[k].id != self.txns@[j].id); } else { assert(self.txns@[j].id != self.txns@[k].id); }
                }
                let m = choose|m: int| 0 <= m < t0.len() && (#[trigger] t0[m]).id == t;
                if m != j2 {
                    if m < j2 { assert(t0[m].id != t0[j2].id); } else { assert(t0[j2].id != t0[m].id); }
                }
            }
            assert forall|t: u64| #[trigger] self.active(t) <==> old(self).active(t) && t != e.id by {
                if self.active(t) {
                    let j = choose|j: int| 0 <= j < self.txns@.len() && (#[trigger] self.txns@[j]).id == t;
                    let j2 = if j < ti { j } else { j + 1 };
                    assert(t0[j2].id == t);
                    if j2 < ti {
                        assert(t0[j2].id != t0[ti as int].id);
                    } else {
                        assert(t0[ti as int].id != t0[j2].id);
                    }
                }
                if old(self).active(t) && t != e.id {
                    let j = choose|j: int| 0 <= j < t0.len() && (#[trigger] t0[j]).id == t;
                    let j2 = if j < ti { j } else { j - 1 };
                    assert(self.txns@[j2].id == t);
                }
            }
        }
        let ghost mid = *self;
        self.table.release_all(e.id);
        proof {
            assert(self.txns@ == mid.txns@);
            Database::lemma_same_txns(self, &mid);
            assert forall|t: u64| #[trigger] self.active(t) <==> mid.active(t) by {
                if mid.active(t) {
                    let j = choose|j: int| 0 <= j < mid.txns@.len() && (#[trigger] mid.txns@[j]).id == t;
                    assert(self.txns@[j].id == t);
                }
            }
            assert forall|i: int| 0 <= i < self.table.locks@.len() implies (#[trigger] self.table.locks@[i]).txn != e.id
                && self.table.locks@[i].txn < self.next_id && self.active(self.table.locks@[i].txn) by {
                assert(self.table.locks@.contains(self.table.locks@[i]));
                let j = choose|j: int| 0 <= j < old(self).table.locks@.len() && old(self).table.locks@[j] == self.table.locks@[i];
                assert(old(self).active(old(self).table.locks@[j].txn));
            }
            assert forall|i: int, j: int|
                0 <= i < self.table.locks@.len() && 0 <= j < self.table.locks@.len() && #[trigger] self.table.locks@[i].txn
                    != #[trigger] self.table.locks@[j].txn && self.table.locks@[i].index == self.table.locks@[j].index
                    implies !self.table.locks@[i].exclusive && !self.table.locks@[j].exclusive by {
                assert(self.table.locks@.contains(self.table.locks@[i]));
                assert(self.table.locks@.contains(self.table.locks@[j]));
                let a = choose|a: int| 0 <= a < old(self).table.locks@.len() && old(self).table.locks@[a] == self.table.locks@[i];
                let b = choose|b: int| 0 <= b < old(self).table.locks@.len() && old(self).table.locks@[b] == self.table.locks@[j];
                assert(old(self).table.locks@[a].txn != old(self).table.locks@[b].txn);
            }
            assert forall|a: int, b: int|
                0 <= a < b < self.txns@.len() implies #[trigger] self.txns@[a].thread != #[trigger] self.txns@[b].thread by {
                let a2 = if a < ti { a } else { a + 1 };
                let b2 = if b < ti { b } else { b + 1 };
                assert(t0[a2].thread != t0[b2].thread);
            }
        }
        e.undo
    }

    /// Takes a lock of the given mode on the index for a call in `scope`.
    ///
    /// Without a transaction nothing is kept: the call only waits while another
    /// transaction holds a conflicting lock. A transaction that would close a
    /// cycle of waits is rolled back and ended.
    fn enter(&mut self, scope: Option<u64>, id: u64, exclusive: bool) -> (r: Result<(), ErrCode>)
        requires
            old(self).wf(),
            scope is Some ==> old(self).active(scope->0),
        ensures
            final(self).wf(),
            r is Ok <==> old(self).may_lock(scope, id, exclusive),
            r is Err ==> r == Err::<(), ErrCode>(ErrCode::WouldBlock) || r == Err::<(), ErrCode>(ErrCode::Deadlock),
            r == Err::<(), ErrCode>(ErrCode::Deadlock) ==> scope is Some && !final(self).active(scope->0),
            r != Err::<(), ErrCode>(ErrCode::Deadlock) ==> final(self).indexes == old(self).indexes && final(self).txns
                == old(self).txns && final(self).next_id == old(self).next_id,
            r is Ok && scope is Some ==> has_lock(final(self).table.locks@, scope->0, id, exclusive),
            final(self).next_id == old(self).next_id,
            forall|t: u64| Some(t) != scope ==> (#[trigger] final(self).active(t) <==> old(self).active(t)),
            final(self).keeps_indexes(old(self)),
            final(self).keeps_handles(old(self)),
            r == Err::<(), ErrCode>(ErrCode::Deadlock) ==> final(self).lock_free(scope->0),
            r == Err::<(), ErrCode>(ErrCode::Deadlock) ==> final(self).undid(old(self), scope->0),
            r == Err::<(), ErrCode>(ErrCode::WouldBlock) || (r is Ok && scope is None) ==> final(self).table.locks@
                == old(self).table.locks@,
            r != Err::<(), ErrCode>(ErrCode::Deadlock) ==> final(self).keeps_txns(old(self)),
            r is Ok ==> final(self).may_lock(scope, id, exclusive),
            scope is Some && !old(self).may_lock(scope, id, exclusive) ==> (r == Err::<(), ErrCode>(ErrCode::Deadlock)
                <==> old(self).closes_cycle(scope->0, id, exclusive)),
            forall|t: u64, x: u64, e: bool| #[trigger] old(self).holds(t, x, e) && !(r == Err::<(), ErrCode>(ErrCode::Deadlock)
                && scope == Some(t)) ==> final(self).holds(t, x, e),
            forall|n: Seq<char>| #[trigger] final(self).has_name(n) <==> old(self).has_name(n),
    {
        match scope {
            None => {
                proof {
                    Database::lemma_same_indexes(self, old(self));
                    Database::lemma_same_txns(self, old(self));
                }
                assert forall|t: u64, x: u64, e: bool| #[trigger] old(self).holds(t, x, e) implies self.holds(t, x, e) by {}
                if self.table.conflicting(None, id, exclusive) {
                    Err(ErrCode::WouldBlock)
                } else {
                    Ok(())
                }
            },
            Some(t) => {
                let g = self.table.acquire(t, id, exclusive);
                proof {
                    Database::lemma_same_indexes(self, old(self));
                    Database::lemma_same_txns(self, old(self));
                }
                match g {
                    Grant::Granted => {
                        proof {
                            assert forall|tt: u64, x: u64, e: bool| #[trigger] old(self).holds(tt, x, e) implies self.holds(tt, x, e) by {
                                let k = choose|k: int| 0 <= k < old(self).table.locks@.len()
                                    && crate::lock::covers(#[trigger] old(self).table.locks@[k], tt, x, e);
                                assert(self.table.locks@[k] == old(self).table.locks@[k]);
                            }
                            if !has_lock(old(self).table.locks@, t, id, exclusive) {
                                let n = self.table.locks@.len() - 1;
                                Database::lemma_same_txns(self, old(self));
                                assert(crate::lock::covers(self.table.locks@[n], t, id, exclusive));
                                let j = choose|j: int| 0 <= j < old(self).txns@.len() && (#[trigger] old(self).txns@[j]).id == t;
                                assert(old(self).txns@[j].id < self.next_id);
                                assert forall|i: int| 0 <= i < self.table.locks@.len() implies (#[trigger] self.table.locks@[i]).txn < self.next_id
                                    && self.active(self.table.locks@[i].txn) by {
                                    if i < n {
                                        assert(old(self).table.locks@[i].txn < self.next_id);
                                        assert(old(self).active(old(self).table.locks@[i].txn));
                                    }
                                }
                                assert forall|a: int, b: int|
                                    0 <= a < self.table.locks@.len() && 0 <= b < self.table.locks@.len() && #[trigger] self.table.locks@[a].txn
                                        != #[trigger] self.table.locks@[b].txn && self.table.locks@[a].index == self.table.locks@[b].index
                                        implies !self.table.locks@[a].exclusive && !self.table.locks@[b].exclusive by {
                                    if a == n {
                                        assert(!crate::lock::conflicts(old(self).table.locks@[b], Some(t), id, exclusive));
                                    } else if b == n {
                                        assert(!crate::lock::conflicts(old(self).table.locks@[a], Some(t), id, exclusive));
                                    } else {
                                        assert(old(self).table.locks@[a].txn != old(self).table.locks@[b].txn);
                                    }
                                }
                            }
                        }
                        Ok(())
                    },
                    Grant::Wait => {
                        assert(self.table.locks@ == old(self).table.locks@);
                        assert forall|tt: u64, x: u64, e: bool| #[trigger] old(self).holds(tt, x, e) implies self.holds(tt, x, e) by {}
                        proof {
                            Database::lemma_same_txns(self, old(self));
                        }
                        assert(self.wf());
                        Err(ErrCode::WouldBlock)
                    },
                    Grant::Deadlock => {
                        let ti = self.find_txn(t).unwrap();
                        let ghost mid = *self;
                        let undo = self.finish(ti);
                        let ghost mid2 = *self;
                        proof {
                            Database::lemma_same_indexes(&mid2, &mid);
                        }
                        self.rollback(&undo);
                        proof {
                            assert forall|x: u64, y: RecV| old(self).has_index(x) implies (#[trigger] self.records(x).contains(y)
                                <==> undone(old(self), old(self).log(t), x, y)) by {
                                Database::lemma_undone_same(&mid2, old(self), old(self).log(t), x, y);
                            }
                            assert forall|n: Seq<char>| #[trigger] mid2.has_name(n) <==> mid.has_name(n) by {}
                        }
                        proof {
                            assert forall|tt: u64, x: u64, e: bool| #[trigger] old(self).holds(tt, x, e) && tt != t implies self.holds(tt, x, e) by {
                                let k = choose|k: int| 0 <= k < old(self).table.locks@.len()
                                    && crate::lock::covers(#[trigger] old(self).table.locks@[k], tt, x, e);
                                let l = old(self).table.locks@[k];
                                assert(mid.table.locks@.contains(l));
                                assert(mid2.table.locks@.contains(l));
                                assert(self.table.locks@.contains(l));
                                let k2 = choose|k2: int| 0 <= k2 < self.table.locks@.len() && self.table.locks@[k2] == l;
                                assert(crate::lock::covers(self.table.locks@[k2], tt, x, e));
                            }
                        }
                        Err(ErrCode::Deadlock)
                    },
                }
            },
        }
    }

    /// The scope is live and the handle is open.
    pub open spec fn usable(&self, h: &IdxState, scope: Option<u64>) -> bool {
        (scope is Some ==> self.active(scope->0)) && self.is_open(h)
    }

    /// Checks the transaction and the handle of a call, and finds the handle's index.
    fn locate(&self, h: &IdxState, txn: Option<&TxnState>) -> (r: Result<usize, ErrCode>)
        requires
            self.wf(),
        ensures
            r is Ok <==> self.usable(h, scope_of(txn)),
            r is Err ==> r == Err::<usize, ErrCode>(
                if scope_of(txn) is Some && !self.active(scope_of(txn)->0) {
                    ErrCode::TxnDne
                } else {
                    ErrCode::DbDne
                },
            ),
            r is Ok ==> r->Ok_0 < self.indexes@.len() && self.indexes@[r->Ok_0 as int].id == h.index_id(),
    {
        if let Some(t) = txn {
            if self.find_txn(t.id).is_none() {
                return Err(ErrCode::TxnDne);
            }
        }
        let i = match self.find_id(h.index) {
            None => return Err(ErrCode::DbDne),
            Some(i) => i,
        };
        proof {
            assert forall|k: int| 0 <= k < self.indexes@.len() && (#[trigger] self.indexes@[k]).id == h.index implies k == i by {
                if k < i {
                    assert(self.indexes@[k].id != self.indexes@[i as int].id);
                } else if k > i {
                    assert(self.indexes@[i as int].id != self.indexes@[k].id);
                }
            }
        }
        if !holds_id(&self.indexes[i].handles, h.handle) {
            return Err(ErrCode::DbDne);
        }
        Ok(i)
    }

    /// Records an undo entry in the log of transaction `t`.
    fn log_undo(&mut self, t: u64, u: Undo)
        requires
            old(self).wf(),
        ensures
            final(self).wf(),
            final(self).indexes == old(self).indexes,
            final(self).table == old(self).table,
            final(self).next_id == old(self).next_id,
            forall|x: u64| #[trigger] final(self).active(x) <==> old(self).active(x),
            final(self).keeps_txns(old(self)),
            old(self).active(t) ==> final(self).log(t) == old(self).log(t).push(undo_view(&u)),
            forall|x: u64| x != t && old(self).active(x) ==> #[trigger] final(self).log(x) == old(self).log(x),
    {
        let ghost uv = undo_view(&u);
        if let Some(ti) = self.find_txn(t) {
            let ghost t0 = self.txns@;
            let mut e = self.txns.remove(ti);
            let ghost old_undo = e.undo@;
            e.undo.push(u);
            self.txns.insert(ti, e);
            proof {
                assert(self.txns@[ti as int].undo@ == old_undo.push(self.txns@[ti as int].undo@.last()));
                assert(old_undo.push(self.txns@[ti as int].undo@.last()).map_values(|w: Undo| undo_view(&w))
                    =~= old_undo.map_values(|w: Undo| undo_view(&w)).push(uv));
                let k = choose|k: int| 0 <= k < self.txns@.len() && (#[trigger] self.txns@[k]).id == t;
                if k < ti { assert(t0[k].id != t0[ti as int].id); }
                if k > ti { assert(t0[ti as int].id != t0[k].id); }
                let k0 = choose|k: int| 0 <= k < t0.len() && (#[trigger] t0[k]).id == t;
                if k0 < ti { assert(t0[k0].id != t0[ti as int].id); }
                if k0 > ti { assert(t0[ti as int].id != t0[k0].id); }
                assert forall|x: u64| x != t && old(self).active(x) implies #[trigger] self.log(x) == old(self).log(x) by {
                    let m0 = choose|m: int| 0 <= m < t0.len() && (#[trigger] t0[m]).id == x;
                    assert(self.txns@[m0].id == x);
                    let m = choose|m: int| 0 <= m < self.txns@.len() && (#[trigger] self.txns@[m]).id == x;
                    assert(t0[m].id == x);
                    if m != m0 {
                        if m < m0 { assert(t0[m].id != t0[m0].id); } else { assert(t0[m0].id != t0[m].id); }
                    }
                }
                assert forall|a: int, b: int|
                    0 <= a < b < self.txns@.len() implies #[trigger] self.txns@[a].id != #[trigger] self.txns@[b].id by {
                    assert(t0[a].id != t0[b].id);
                }
                assert forall|a: int| 0 <= a < self.txns@.len() implies (#[trigger] self.txns@[a]).id < self.next_id by {
                    assert(t0[a].id < self.next_id);
                }
                assert forall|a: int, b: int|
                    0 <= a < b < self.txns@.len() implies #[trigger] self.txns@[a].thread != #[trigger] self.txns@[b].thread by {
                    assert(t0[a].thread != t0[b].thread);
                }
                assert forall|x: u64| #[trigger] self.busy(x) <==> old(self).busy(x) by {
                    if self.busy(x) {
                        let j = choose|j: int| 0 <= j < self.txns@.len() && (#[trigger] self.txns@[j]).thread == x;
                        assert(t0[j].thread == x);
                    }
                    if old(self).busy(x) {
                        let j = choose|j: int| 0 <= j < t0.len() && (#[trigger] t0[j]).thread == x;
                        assert(self.txns@[j].thread == x);
                    }
                }
                assert forall|x: u64| old(self).active(x) implies #[trigger] self.owner(x) == old(self).owner(x) by {
                    let m = choose|m: int| 0 <= m < t0.len() && (#[trigger] t0[m]).id == x;
                    assert(self.txns@[m].id == x);
                    let j = choose|j: int| 0 <= j < self.txns@.len() && (#[trigger] self.txns@[j]).id == x;
                    assert(t0[j].id == x);
                    if m != j {
                        if m < j { assert(t0[m].id != t0[j].id); } else { assert(t0[j].id != t0[m].id); }
                    }
                }
                assert forall|x: u64| #[trigger] self.active(x) <==> old(self).active(x) by {
                    if self.active(x) {
                        let j = choose|j: int| 0 <= j < self.txns@.len() && (#[trigger] self.txns@[j]).id == x;
                        assert(t0[j].id == x);
                    }
                    if old(self).active(x) {
                        let j = choose|j: int| 0 <= j < t0.len() && (#[trigger] t0[j]).id == x;
                        assert(self.txns@[j].id == x);
                    }
                }
            }
        }
    }

    proof fn lemma_same_indexes(a: &Database, b: &Database)
        requires
            a.indexes@ == b.indexes@,
        ensures
            a.keeps_indexes(b),
            a.keeps_handles(b),
            forall|x: u64| #[trigger] a.records(x) == b.records(x),
    {
        assert forall|x: u64| #[trigger] a.has_index(x) <==> b.has_index(x) by {
            if a.has_index(x) {
                let j = choose|j: int| 0 <= j < a.indexes@.len() && (#[trigger] a.indexes@[j]).id == x;
                assert(b.indexes@[j].id == x);
            }
            if b.has_index(x) {
                let j = choose|j: int| 0 <= j < b.indexes@.len() && (#[trigger] b.indexes@[j]).id == x;
                assert(a.indexes@[j].id == x);
            }
        }
        assert forall|n: Seq<char>| #[trigger] a.has_name(n) <==> b.has_name(n) by {
            if a.has_name(n) {
                let j = choose|j: int| 0 <= j < a.indexes@.len() && (#[trigger] a.indexes@[j]).name@ == n;
                assert(b.indexes@[j].name@ == n);
            }
            if b.has_name(n) {
                let j = choose|j: int| 0 <= j < b.indexes@.len() && (#[trigger] b.indexes@[j]).name@ == n;
                assert(a.indexes@[j].name@ == n);
            }
        }
        assert forall|h: &IdxState| #[trigger] a.is_open(h) <==> b.is_open(h) by {
            if a.is_open(h) {
                let j = choose|j: int| 0 <= j < a.indexes@.len() && (#[trigger] a.indexes@[j]).id == h.index
                    && a.indexes@[j].handles@.contains(h.handle);
                assert(b.indexes@[j].id == h.index && b.indexes@[j].handles@.contains(h.handle));
            }
            if b.is_open(h) {
                let j = choose|j: int| 0 <= j < b.indexes@.len() && (#[trigger] b.indexes@[j]).id == h.index
                    && b.indexes@[j].handles@.contains(h.handle);
                assert(a.indexes@[j].id == h.index && a.indexes@[j].handles@.contains(h.handle));
            }
        }
    }

    proof fn lemma_keeps_trans(a: &Database, b: &Database, c: &Database)
        requires
            a.keeps_indexes(b),
            b.keeps_indexes(c),
        ensures
            a.keeps_indexes(c),
            a.keeps_handles(b) && b.keeps_handles(c) ==> a.keeps_handles(c),
            a.keeps_txns(b) && b.keeps_txns(c) ==> a.keeps_txns(c),
            a.same_locks(b) && b.same_locks(c) ==> a.same_locks(c),
    {
        assert forall|x: u64| c.has_index(x) implies #[trigger] a.key_type(x) == c.key_type(x) by {
            assert(b.has_index(x));
        }
        assert forall|n: Seq<char>| c.has_name(n) implies #[trigger] a.id_of(n) == c.id_of(n) by {
            assert(b.has_name(n));
        }
        if a.keeps_txns(b) && b.keeps_txns(c) {
            assert forall|t: u64| c.active(t) implies #[trigger] a.owner(t) == c.owner(t) by {
                assert(b.active(t));
            }
        }
        if a.same_locks(b) && b.same_locks(c) {
            assert forall|s: Option<u64>, x: u64, e: bool| #[trigger] a.may_lock(s, x, e) == c.may_lock(s, x, e) by {
                assert(a.may_lock(s, x, e) == b.may_lock(s, x, e));
                assert(b.may_lock(s, x, e) == c.may_lock(s, x, e));
            }
        }
    }

    proof fn lemma_undone_same(a: &Database, b: &Database, log: Seq<UndoV>, x: u64, y: RecV)
        requires
            forall|z: u64| #[trigger] a.records(z) == b.records(z),
        ensures
            undone(a, log, x, y) == undone(b, log, x, y),
        decreases log.len(),
    {
        if log.len() > 0 {
            Database::lemma_undone_same(a, b, log.drop_first(), x, y);
        }
    }

    proof fn lemma_same_locks(a: &Database, b: &Database)
        requires
            a.table.locks@ == b.table.locks@,
        ensures
            a.same_locks(b),
    {
        assert forall|s: Option<u64>, x: u64, e: bool| #[trigger] a.may_lock(s, x, e) == b.may_lock(s, x, e) by {}
    }

    proof fn lemma_same_txns(a: &Database, b: &Database)
        requires
            a.txns@ == b.txns@,
        ensures
            a.keeps_txns(b),
    {
        assert forall|t: u64| #[trigger] a.active(t) <==> b.active(t) by {
            if a.active(t) {
                let j = choose|j: int| 0 <= j < a.txns@.len() && (#[trigger] a.txns@[j]).id == t;
                assert(b.txns@[j].id == t);
            }
            if b.active(t) {
                let j = choose|j: int| 0 <= j < b.txns@.len() && (#[trigger] b.txns@[j]).id == t;
                assert(a.txns@[j].id == t);
            }
        }
        assert forall|t: u64| #[trigger] a.busy(t) <==> b.busy(t) by {
            if a.busy(t) {
                let j = choose|j: int| 0 <= j < a.txns@.len() && (#[trigger] a.txns@[j]).thread == t;
                assert(b.txns@[j].thread == t);
            }
            if b.busy(t) {
                let j = choose|j: int| 0 <= j < b.txns@.len() && (#[trigger] b.txns@[j]).thread == t;
                assert(a.txns@[j].thread == t);
            }
        }
        assert forall|t: u64| b.active(t) implies #[trigger] a.owner(t) == b.owner(t) by {}
    }

    proof fn lemma_unique_id(&self, i: int)
        requires
            self.wf(),
            0 <= i < self.indexes@.len(),
        ensures
            self.has_index(self.indexes@[i].id),
            self.records(self.indexes@[i].id) == self.indexes@[i].store@,
            self.key_type(self.indexes@[i].id) == self.indexes@[i].key_type,
    {
        let id = self.indexes@[i].id;
        assert(self.has_index(id));
        let j = choose|j: int| 0 <= j < self.indexes@.len() && (#[trigger] self.indexes@[j]).id == id;
        if j < i {
            assert(self.indexes@[j].id != self.indexes@[i].id);
        } else if j > i {
            assert(self.indexes@[i].id != self.indexes@[j].id);
        }
    }

    proof fn lemma_unique_name(&self, i: int)
        requires
            self.wf(),
            0 <= i < self.indexes@.len(),
        ensures
            self.has_name(self.indexes@[i].name@),
            self.id_of(self.indexes@[i].name@) == self.indexes@[i].id,
    {
        let n = self.indexes@[i].name@;
        assert(self.has_name(n));
        let j = choose|j: int| 0 <= j < self.indexes@.len() && (#[trigger] self.indexes@[j]).name@ == n;
        if j < i {
            assert(self.indexes@[j].name@ != self.indexes@[i].name@);
        } else if j > i {
            assert(self.indexes@[i].name@ != self.indexes@[j].name@);
        }
    }
}

/// Creates an empty index of the given key type under a new name.
pub fn create(db: &mut Database, key_type: KeyType, name: &str) -> (r: Result<(), ErrCode>)
    requires
        old(db).wf(),
    ensures
        final(db).wf(),
        r == Err::<(), ErrCode>(ErrCode::DbExists) <==> old(db).has_name(name@),
        r is Ok <==> !old(db).has_name(name@) && old(db).ids_left(),
        r is Err ==> *final(db) == *old(db),
        !old(db).has_name(name@) && !old(db).ids_left() ==> r == Err::<(), ErrCode>(ErrCode::Failure),
        r is Ok ==> final(db).bound() == old(db).bound() + 1,
        r is Ok ==> !old(db).has_index(final(db).id_of(name@)),
        final(db).same_locks(old(db)),
        final(db).keeps_txns(old(db)),
        final(db).keeps_handles(old(db)),
        r is Ok ==> forall|x: u64| #[trigger] final(db).has_index(x) <==> old(db).has_index(x) || x == final(db).id_of(name@),
        r is Ok ==> forall|x: u64| old(db).has_index(x) ==> #[trigger] final(db).records(x) == old(db).records(x),
        r is Ok ==> forall|x: u64| old(db).has_index(x) ==> #[trigger] final(db).key_type(x) == old(db).key_type(x),
        r is Ok ==> forall|n: Seq<char>| #[trigger] final(db).has_name(n) <==> old(db).has_name(n) || n == name@,
        r is Ok ==> forall|n: Seq<char>| old(db).has_name(n) ==> #[trigger] final(db).id_of(n) == old(db).id_of(n),
        r is Ok ==> final(db).records(final(db).id_of(name@)) == Seq::<RecV>::empty(),
        r is Ok ==> final(db).key_type(final(db).id_of(name@)) == key_type,
{
    let n = name.to_owned();
    if db.find_name(&n).is_some() {
        return Err(ErrCode::DbExists);
    }
    if db.next_id == u64::MAX {
        return Err(ErrCode::Failure);
    }
    let id = db.next_id;
    let ghost old_db = *db;
    db.indexes.push(IndexEntry { id, name: n, key_type, store: Store::new(), handles: Vec::new() });
    db.next_id = id + 1;
    proof {
        let last = db.indexes@.len() - 1;
        assert forall|i: int, j: int|
            0 <= i < j < db.indexes@.len() implies #[trigger] db.indexes@[i].id != #[trigger] db.indexes@[j].id
                && db.indexes@[i].name@ != db.indexes@[j].name@ by {
            if j == last {
                assert(old_db.indexes@[i].name@ != name@);
            } else {
                assert(old_db.indexes@[i].id != old_db.indexes@[j].id);
            }
        }
        Database::lemma_same_txns(db, &old_db);
        Database::lemma_same_locks(db, &old_db);
        assert forall|a: int| 0 <= a < db.table.locks@.len() implies db.active((#[trigger] db.table.locks@[a]).txn) by {
            assert(old_db.active(old_db.table.locks@[a].txn));
        }
        assert forall|a: int, k: int| 0 <= a < db.indexes@.len() && 0 <= k < db.indexes@[a].handles@.len()
            implies #[trigger] db.indexes@[a].handles@[k] < db.next_id by {
            if a < last {
                assert(old_db.indexes@[a].handles@[k] < old_db.next_id);
            }
        }
        assert(db.wf());
        db.lemma_unique_name(last);
        db.lemma_unique_id(last);
        Database::lemma_same_txns(db, &old_db);
        Database::lemma_same_locks(db, &old_db);
        assert forall|h: &IdxState| #[trigger] db.is_open(h) <==> old_db.is_open(h) by {
            if db.is_open(h) {
                let j = choose|j: int| 0 <= j < db.indexes@.len() && (#[trigger] db.indexes@[j]).id == h.index
                    && db.indexes@[j].handles@.contains(h.handle);
                if j == last {
                    assert(db.indexes@[j].handles@.len() == 0);
                }
                assert(old_db.indexes@[j].id == h.index);
            }
            if old_db.is_open(h) {
                let j = choose|j: int| 0 <= j < old_db.indexes@.len() && (#[trigger] old_db.indexes@[j]).id == h.index
                    && old_db.indexes@[j].handles@.contains(h.handle);
                assert(db.indexes@[j].id == h.index);
            }
        }
        assert forall|x: u64| #[trigger] db.has_index(x) <==> old_db.has_index(x) || x == id by {
            if db.has_index(x) {
                let j = choose|j: int| 0 <= j < db.indexes@.len() && (#[trigger] db.indexes@[j]).id == x;
                if j < last {
                    assert(old_db.indexes@[j].id == x);
                }
            }
            if old_db.has_index(x) {
                let j = choose|j: int| 0 <= j < old_db.indexes@.len() && (#[trigger] old_db.indexes@[j]).id == x;
                assert(db.indexes@[j].id == x);
            }
        }
        assert(!old_db.has_index(id)) by {
            if old_db.has_index(id) {
                let j = choose|j: int| 0 <= j < old_db.indexes@.len() && (#[trigger] old_db.indexes@[j]).id == id;
                assert(old_db.indexes@[j].id < old_db.next_id);
            }
        }
        assert forall|x: u64| old_db.has_index(x) implies db.records(x) == old_db.records(x)
            && db.key_type(x) == old_db.key_type(x) by {
            let j = choose|j: int| 0 <= j < old_db.indexes@.len() && (#[trigger] old_db.indexes@[j]).id == x;
            assert(db.indexes@[j] == old_db.indexes@[j]);
            old_db.lemma_unique_id(j);
            db.lemma_unique_id(j);
        }
        assert forall|m: Seq<char>| #[trigger] db.has_name(m) <==> old_db.has_name(m) || m == name@ by {
            if db.has_name(m) {
                let j = choose|j: int| 0 <= j < db.indexes@.len() && (#[trigger] db.indexes@[j]).name@ == m;
                if j < last {
                    assert(old_db.indexes@[j].name@ == m);
                }
            }
            if old_db.has_name(m) {
                let j = choose|j: int| 0 <= j < old_db.indexes@.len() && (#[trigger] old_db.indexes@[j]).name@ == m;
                assert(db.indexes@[j].name@ == m);
            }
        }
    }
    proof {
        assert forall|m: Seq<char>| old_db.has_name(m) implies #[trigger] db.id_of(m) == old_db.id_of(m) by {
            let j = choose|j: int| 0 <= j < old_db.indexes@.len() && (#[trigger] old_db.indexes@[j]).name@ == m;
            old_db.lemma_unique_name(j);
            assert(db.indexes@[j] == old_db.indexes@[j]);
            db.lemma_unique_name(j);
        }
    }
    assert(old_db == *old(db));
    Ok(())
}

#[verifier::rlimit(60)]
/// Removes an index and all its records; refused with `Failure` while a handle on it is open.
pub fn drop(db: &mut Database, name: &str) -> (r: Result<(), ErrCode>)
    requires
        old(db).wf(),
    ensures
        final(db).wf(),
        r == Err::<(), ErrCode>(ErrCode::DbDne) <==> !old(db).has_name(name@),
        r == Err::<(), ErrCode>(ErrCode::Failure) <==> old(db).in_use(name@),
        r is Ok <==> old(db).has_name(name@) && !old(db).in_use(name@),
        final(db).same_locks(old(db)),
        final(db).keeps_txns(old(db)),
        r is Ok ==> forall|x: u64| #[trigger] final(db).has_index(x) <==> old(db).has_index(x) && x != old(db).id_of(name@),
        r is Ok ==> forall|x: u64| final(db).has_index(x) ==> #[trigger] final(db).records(x) == old(db).records(x),
        r is Ok ==> forall|x: u64| final(db).has_index(x) ==> #[trigger] final(db).key_type(x) == old(db).key_type(x),
        r is Err ==> *final(db) == *old(db),
        r is Ok ==> forall|n: Seq<char>| #[trigger] final(db).has_name(n) <==> old(db).has_name(n) && n != name@,
        r is Ok ==> forall|n: Seq<char>| old(db).has_name(n) && n != name@ ==> #[trigger] final(db).id_of(n) == old(db).id_of(n),
{
    let n = name.to_owned();
    let i = match db.find_name(&n) {
        None => {
            proof {
                assert forall|j: int| 0 <= j < db.indexes@.len() implies (#[trigger] db.indexes@[j]).name@ != name@ by {
                    assert(!db.has_name(name@));
                }
            }
            return Err(ErrCode::DbDne);
        },
        Some(i) => i,
    };
    proof {
        assert forall|j: int| 0 <= j < db.indexes@.len() && (#[trigger] db.indexes@[j]).name@ == name@ implies j == i by {
            if j < i {
                assert(db.indexes@[j].name@ != db.indexes@[i as int].name@);
            } else if j > i {
                assert(db.indexes@[i as int].name@ != db.indexes@[j].name@);
            }
        }
    }
    if db.indexes[i].handles.len() > 0 {
        return Err(ErrCode::Failure);
    }
    let ghost old_db = *db;
    db.indexes.remove(i);
    proof {
        assert(db.indexes@ =~= old_db.indexes@.remove(i as int));
        assert forall|a: int, b: int|
            0 <= a < b < db.indexes@.len() implies #[trigger] db.indexes@[a].id != #[trigger] db.indexes@[b].id
                && db.indexes@[a].name@ != db.indexes@[b].name@ by {
            let a2 = if a < i { a } else { a + 1 };
            let b2 = if b < i { b } else { b + 1 };
            assert(old_db.indexes@[a2].id != old_db.indexes@[b2].id);
        }
        assert forall|a: int| 0 <= a < db.indexes@.len() implies (#[trigger] db.indexes@[a]).store.wf() by {
            let a2 = if a < i { a } else { a + 1 };
            assert(old_db.indexes@[a2].store.wf());
        }
        assert forall|a: int| 0 <= a < db.indexes@.len() implies (#[trigger] db.indexes@[a]).id < db.next_id by {
            let a2 = if a < i { a } else { a + 1 };
            assert(old_db.indexes@[a2].id < db.next_id);
        }
        assert forall|a: int, k: int| 0 <= a < db.indexes@.len() && 0 <= k < db.indexes@[a].handles@.len()
            implies #[trigger] db.indexes@[a].handles@[k] < db.next_id by {
            let a2 = if a < i { a } else { a + 1 };
            assert(db.indexes@[a] == old_db.indexes@[a2]);
            assert(old_db.indexes@[a2].handles@[k] < old_db.next_id);
        }
        Database::lemma_same_txns(db, &old_db);
        Database::lemma_same_locks(db, &old_db);
        assert(db.wf());
        Database::lemma_same_txns(db, &old_db);
        Database::lemma_same_locks(db, &old_db);
        old_db.lemma_unique_name(i as int);
        let gone = old_db.indexes@[i as int].id;
        assert forall|x: u64| #[trigger] db.has_index(x) <==> old_db.has_index(x) && x != gone by {
            if db.has_index(x) {
                let j = choose|j: int| 0 <= j < db.indexes@.len() && (#[trigger] db.indexes@[j]).id == x;
                let j2 = if j < i { j } else { j + 1 };
                assert(old_db.indexes@[j2].id == x);
                if j2 < i {
                    assert(old_db.indexes@[j2].id != old_db.indexes@[i as int].id);
                } else {
                    assert(old_db.indexes@[i as int].id != old_db.indexes@[j2].id);
                }
            }
            if old_db.has_index(x) && x != gone {
                let j = choose|j: int| 0 <= j < old_db.indexes@.len() && (#[trigger] old_db.indexes@[j]).id == x;
                let j2 = if j < i { j } else { j - 1 };
                assert(db.indexes@[j2].id == x);
            }
        }
        assert forall|x: u64| db.has_index(x) implies db.records(x) == old_db.records(x)
            && db.key_type(x) == old_db.key_type(x) by {
            let j = choose|j: int| 0 <= j < db.indexes@.len() && (#[trigger] db.indexes@[j]).id == x;
            let j2 = if j < i { j } else { j + 1 };
            db.lemma_unique_id(j);
            old_db.lemma_unique_id(j2);
        }
        assert forall|m: Seq<char>| #[trigger] db.has_name(m) <==> old_db.has_name(m) && m != name@ by {
            if db.has_name(m) {
                let j = choose|j: int| 0 <= j < db.indexes@.len() && (#[trigger] db.indexes@[j]).name@ == m;
                let j2 = if j < i { j } else { j + 1 };
                assert(old_db.indexes@[j2].name@ == m);
            }
            if old_db.has_name(m) && m != name@ {
                let j = choose|j: int| 0 <= j < old_db.indexes@.len() && (#[trigger] old_db.indexes@[j]).name@ == m;
                let j2 = if j < i { j } else { j - 1 };
                assert(db.indexes@[j2].name@ == m);
            }
        }
    }
    proof {
        assert forall|m: Seq<char>| old_db.has_name(m) && m != name@ implies #[trigger] db.id_of(m) == old_db.id_of(m) by {
            let j = choose|j: int| 0 <= j < old_db.indexes@.len() && (#[trigger] old_db.indexes@[j]).name@ == m;
            old_db.lemma_unique_name(j);
            assert(j != i);
            let j2 = if j < i { j } else { j - 1 };
            assert(db.indexes@[j2] == old_db.indexes@[j]);
            db.lemma_unique_name(j2);
        }
    }
    Ok(())
}

/// Opens a fresh handle, with no scan position, on the index of this name.
pub fn open_index(db: &mut Database, name: &str) -> (r: Result<IdxState, ErrCode>)
    requires
        old(db).wf(),
    ensures
        final(db).wf(),
        r == Err::<IdxState, ErrCode>(ErrCode::DbDne) <==> !old(db).has_name(name@),
        r is Ok <==> old(db).has_name(name@) && old(db).ids_left(),
        r is Err ==> *final(db) == *old(db),
        r is Ok ==> {
            &&& r->Ok_0.index_id() == old(db).id_of(name@)
            &&& forall|scope: Option<u64>| #[trigger] r->Ok_0.start(scope) is None
            &&& r->Ok_0.scopes_below(final(db).bound())
            &&& final(db).bound() == old(db).bound() + 1
            &&& !old(db).is_open(&r->Ok_0)
            &&& forall|h: &IdxState| old(db).is_open(h) ==> #[trigger] final(db).is_open(h)
            &&& forall|h: &IdxState| #[trigger] final(db).is_open(h) ==> old(db).is_open(h) || (h.index_id()
                == r->Ok_0.index_id() && h.handle_id() == r->Ok_0.handle_id())
            &&& final(db).keeps_indexes(old(db))
            &&& final(db).keeps_txns(old(db))
            &&& final(db).same_locks(old(db))
            &&& final(db).is_open(&r->Ok_0)
            &&& forall|n: Seq<char>| #[trigger] final(db).has_name(n) <==> old(db).has_name(n)
            &&& forall|id: u64| old(db).has_index(id) ==> #[trigger] final(db).records(id) == old(db).records(id)
            &&& forall|t: u64| #[trigger] final(db).active(t) <==> old(db).active(t)
        },
{
    let n = name.to_owned();
    let i = match db.find_name(&n) {
        None => return Err(ErrCode::DbDne),
        Some(i) => i,
    };
    if db.next_id == u64::MAX {
        return Err(ErrCode::Failure);
    }
    let handle = db.next_id;
    db.next_id = handle + 1;
    let ghost mid = *db;
    proof {
        assert(mid.wf()) by {
            assert forall|a: int| 0 <= a < mid.indexes@.len() implies (#[trigger] mid.indexes@[a]).id < mid.next_id by {}
            assert forall|a: int| 0 <= a < mid.txns@.len() implies (#[trigger] mid.txns@[a]).id < mid.next_id by {}
            assert forall|a: int, k: int| 0 <= a < mid.indexes@.len() && 0 <= k < mid.indexes@[a].handles@.len()
                implies #[trigger] mid.indexes@[a].handles@[k] < mid.next_id by {
                assert(old(db).indexes@[a].handles@[k] < old(db).next_id);
            }
        }
        mid.lemma_unique_name(i as int);
        assert forall|n: Seq<char>| #[trigger] mid.has_name(n) <==> old(db).has_name(n) by {}
        assert forall|id: u64| old(db).has_index(id) implies #[trigger] mid.records(id) == old(db).records(id) by {}
        assert forall|t: u64| #[trigger] mid.active(t) <==> old(db).active(t) by {}
    }
    let mut e = db.indexes.remove(i);
    let ghost eh = e.handles@;
    e.handles.push(handle);
    proof {
        assert forall|k: int| 0 <= k < e.handles@.len() implies #[trigger] e.handles@[k] < mid.next_id by {
            if k < eh.len() {
                assert(mid.indexes@[i as int].handles@[k] < mid.next_id);
            }
        }
    }
    let index = e.id;
    db.indexes.insert(i, e);
    proof {
        Database::lemma_update(&mid, db, i as int);
        assert(db.indexes@[i as int].handles@.last() == handle);
        assert(db.indexes@[i as int].handles@.contains(handle));
        Database::lemma_same_txns(&mid, old(db));
        Database::lemma_same_locks(&mid, old(db));
        assert forall|h: &IdxState| old(db).is_open(h) implies #[trigger] db.is_open(h) by {
            let k = choose|k: int| 0 <= k < mid.indexes@.len() && (#[trigger] mid.indexes@[k]).id == h.index
                && mid.indexes@[k].handles@.contains(h.handle);
            if k == i {
                let m = choose|m: int| 0 <= m < eh.len() && eh[m] == h.handle;
                assert(db.indexes@[k].handles@[m] == h.handle);
            } else {
                assert(db.indexes@[k] == mid.indexes@[k]);
            }
        }
        assert forall|h: &IdxState| #[trigger] db.is_open(h) implies old(db).is_open(h) || (h.index == index
            && h.handle == handle) by {
            let k = choose|k: int| 0 <= k < db.indexes@.len() && (#[trigger] db.indexes@[k]).id == h.index
                && db.indexes@[k].handles@.contains(h.handle);
            if k == i {
                let m = choose|m: int| 0 <= m < db.indexes@[k].handles@.len() && db.indexes@[k].handles@[m] == h.handle;
                if m < eh.len() {
                    assert(eh[m] == h.handle);
                    assert(mid.indexes@[k].handles@.contains(h.handle));
                } else {
                    assert(h.handle == handle);
                    assert(h.index == index);
                }
            } else {
                assert(db.indexes@[k] == mid.indexes@[k]);
            }
        }
    }
    let h = IdxState { index, handle, cursors: Vec::new() };
    assert(db.is_open(&h));
    proof {
        if old(db).is_open(&h) {
            let k = choose|k: int| 0 <= k < old(db).indexes@.len() && (#[trigger] old(db).indexes@[k]).id == h.index
                && old(db).indexes@[k].handles@.contains(h.handle);
            let m = choose|m: int| 0 <= m < old(db).indexes@[k].handles@.len() && old(db).indexes@[k].handles@[m] == handle;
            assert(old(db).indexes@[k].handles@[m] < old(db).next_id);
        }
    }
    Ok(h)
}

/// Closes a handle; fails with `DbDne` when it is not open.
pub fn close_index(db: &mut Database, index_state: IdxState) -> (r: Result<(), ErrCode>)
    requires
        old(db).wf(),
    ensures
        final(db).wf(),
        r is Err <==> !old(db).is_open(&index_state),
        r is Err ==> r == Err::<(), ErrCode>(ErrCode::DbDne) && *final(db) == *old(db),
        r is Ok ==> !final(db).is_open(&index_state),
        forall|h: &IdxState| old(db).is_open(h) && !(h.index_id() == index_state.index_id() && h.handle_id()
            == index_state.handle_id()) ==> #[trigger] final(db).is_open(h),
        forall|h: &IdxState| #[trigger] final(db).is_open(h) ==> old(db).is_open(h),
        final(db).keeps_indexes(old(db)),
        final(db).keeps_txns(old(db)),
        final(db).same_locks(old(db)),
        final(db).bound() == old(db).bound(),
        forall|n: Seq<char>| #[trigger] final(db).has_name(n) <==> old(db).has_name(n),
        forall|id: u64| old(db).has_index(id) ==> #[trigger] final(db).records(id) == old(db).records(id),
        forall|t: u64| #[trigger] final(db).active(t) <==> old(db).active(t),
{
    let i = match db.find_id(index_state.index) {
        None => return Err(ErrCode::DbDne),
        Some(i) => i,
    };
    proof {
        db.lemma_unique_id(i as int);
    }
    let ghost mid = *db;
    let hs = &db.indexes[i].handles;
    let mut kept: Vec<u64> = Vec::new();
    let mut found = false;
    let mut j: usize = 0;
    while j < hs.len()
        invariant
            j <= hs@.len(),
            forall|x: u64| #[trigger] kept@.contains(x) <==> exists|k: int| 0 <= k < j && hs@[k] == x && x != index_state.handle,
            found <==> exists|k: int| 0 <= k < j && hs@[k] == index_state.handle,
        decreases hs@.len() - j,
    {
        let x = hs[j];
        let ghost before = kept@;
        if x == index_state.handle {
            found = true;
        } else {
            kept.push(x);
        }
        proof {
            assert forall|y: u64| #[trigger] kept@.contains(y) <==> exists|k: int| 0 <= k < j + 1 && hs@[k] == y && y != index_state.handle by {
                if kept@.contains(y) && !before.contains(y) {
                    let k = choose|k: int| 0 <= k < kept@.len() && kept@[k] == y;
                    if k < before.len() {
                        assert(before[k] == y);
                    }
                    assert(hs@[j as int] == y);
                }
                if before.contains(y) {
                    let k = choose|k: int| 0 <= k < before.len() && before[k] == y;
                    assert(kept@[k] == y);
                }
                if exists|k: int| 0 <= k < j + 1 && hs@[k] == y && y != index_state.handle {
                    let k = choose|k: int| 0 <= k < j + 1 && hs@[k] == y && y != index_state.handle;
                    if k == j {
                        assert(kept@[kept@.len() - 1] == y);
                    } else {
                        assert(before.contains(y));
                    }
                }
            }
        }
        j = j + 1;
    }
    if !found {
        proof {
            assert(!hs@.contains(index_state.handle));
            assert forall|k: int| 0 <= k < db.indexes@.len() && (#[trigger] db.indexes@[k]).id == index_state.index
                implies !db.indexes@[k].handles@.contains(index_state.handle) by {
                if k != i {
                    if k < i {
                        assert(db.indexes@[k].id != db.indexes@[i as int].id);
                    } else {
                        assert(db.indexes@[i as int].id != db.indexes@[k].id);
                    }
                }
            }
        }
        return Err(ErrCode::DbDne);
    }
    proof {
        assert forall|k: int| 0 <= k < kept@.len() implies #[trigger] kept@[k] < mid.next_id by {
            assert(kept@.contains(kept@[k]));
            let k2 = choose|k2: int| 0 <= k2 < j && hs@[k2] == kept@[k];
            assert(mid.indexes@[i as int].handles@[k2] < mid.next_id);
        }
    }
    let mut e = db.indexes.remove(i);
    e.handles = kept;
    db.indexes.insert(i, e);
    proof {
        Database::lemma_update(&mid, db, i as int);
        assert forall|h: &IdxState| old(db).is_open(h) && !(h.index == index_state.index && h.handle == index_state.handle)
            implies #[trigger] db.is_open(h) by {
            let k = choose|k: int| 0 <= k < mid.indexes@.len() && (#[trigger] mid.indexes@[k]).id == h.index
                && mid.indexes@[k].handles@.contains(h.handle);
            if k == i {
                let m = choose|m: int| 0 <= m < hs@.len() && hs@[m] == h.handle;
                assert(kept@.contains(h.handle));
                assert(db.indexes@[k].handles@.contains(h.handle));
            } else {
                assert(db.indexes@[k] == mid.indexes@[k]);
            }
        }
        assert forall|h: &IdxState| #[trigger] db.is_open(h) implies old(db).is_open(h) by {
            let k = choose|k: int| 0 <= k < db.indexes@.len() && (#[trigger] db.indexes@[k]).id == h.index
                && db.indexes@[k].handles@.contains(h.handle);
            if k == i {
                assert(kept@.contains(h.handle));
                let m = choose|m: int| 0 <= m < j && hs@[m] == h.handle && h.handle != index_state.handle;
                assert(mid.indexes@[k].handles@.contains(h.handle));
            } else {
                assert(db.indexes@[k] == mid.indexes@[k]);
            }
        }
        assert forall|k: int| 0 <= k < db.indexes@.len() && (#[trigger] db.indexes@[k]).id == index_state.index
            implies !db.indexes@[k].handles@.contains(index_state.handle) by {
            if k != i {
                if k < i {
                    assert(db.indexes@[k].id != db.indexes@[i as int].id);
                } else {
                    assert(db.indexes@[i as int].id != db.indexes@[k].id);
                }
            }
        }
    }
    Ok(())
}

/// Begins a transaction for the calling thread; fails with `TxnExists` while it has one.
pub fn begin_transaction(db: &mut Database, thread: u64) -> (r: Result<TxnState, ErrCode>)
    requires
        old(db).wf(),
    ensures
        final(db).wf(),
        r == Err::<TxnState, ErrCode>(ErrCode::TxnExists) <==> old(db).busy(thread),
        r is Ok <==> !old(db).busy(thread) && old(db).ids_left(),
        r is Err ==> *final(db) == *old(db),
        r is Ok ==> {
            &&& final(db).active(r->Ok_0.id())
            &&& !old(db).active(r->Ok_0.id())
            &&& r->Ok_0.id() == old(db).bound()
            &&& final(db).bound() == old(db).bound() + 1
            &&& final(db).owner(r->Ok_0.id()) == thread
            &&& forall|t: u64| old(db).active(t) ==> #[trigger] final(db).owner(t) == old(db).owner(t)
            &&& forall|t: u64| #[trigger] final(db).busy(t) <==> old(db).busy(t) || t == thread
            &&& final(db).keeps_indexes(old(db))
            &&& final(db).keeps_handles(old(db))
            &&& final(db).same_locks(old(db))
            &&& final(db).busy(thread)
            &&& final(db).lock_free(r->Ok_0.id())
            &&& final(db).log(r->Ok_0.id()) == Seq::<UndoV>::empty()
            &&& forall|t: u64| #[trigger] final(db).active(t) <==> old(db).active(t) || t == r->Ok_0.id()
            &&& forall|n: Seq<char>| #[trigger] final(db).has_name(n) <==> old(db).has_name(n)
            &&& forall|id: u64| old(db).has_index(id) ==> #[trigger] final(db).records(id) == old(db).records(id)
        },
{
    if db.find_thread(thread) {
        return Err(ErrCode::TxnExists);
    }
    if db.next_id == u64::MAX {
        return Err(ErrCode::Failure);
    }
    let id = db.next_id;
    proof {
        assert forall|i: int| 0 <= i < db.table.locks@.len() implies (#[trigger] db.table.locks@[i]).txn != id by {
            assert(db.table.locks@[i].txn < db.next_id);
        }
    }
    db.txns.push(TxnEntry { id, thread, undo: Vec::new() });
    db.next_id = id + 1;
    let t = TxnState { id };
    proof {
        let last = db.txns@.len() - 1;
        assert(db.txns@[last].id == id);
        assert(db.txns@[last].thread == thread);
        assert forall|tt: u64| #[trigger] db.active(tt) <==> old(db).active(tt) || tt == id by {
            if db.active(tt) {
                let j = choose|j: int| 0 <= j < db.txns@.len() && (#[trigger] db.txns@[j]).id == tt;
                if j < last {
                    assert(old(db).txns@[j].id == tt);
                }
            }
            if old(db).active(tt) {
                let j = choose|j: int| 0 <= j < old(db).txns@.len() && (#[trigger] old(db).txns@[j]).id == tt;
                assert(db.txns@[j].id == tt);
            }
        }
        assert(!old(db).active(id));
        assert forall|n: Seq<char>| #[trigger] db.has_name(n) <==> old(db).has_name(n) by {}
        assert forall|x: u64| old(db).has_index(x) implies #[trigger] db.records(x) == old(db).records(x) by {}
    }
    proof {
        Database::lemma_same_indexes(db, old(db));
        Database::lemma_same_locks(db, old(db));
        let last = db.txns@.len() - 1;
        assert forall|k: int| 0 <= k < db.txns@.len() && (#[trigger] db.txns@[k]).id == id implies k == last by {
            if k < last {
                assert(old(db).txns@[k].id < old(db).next_id);
            }
        }
        assert(db.txns@[last].undo@.map_values(|u: Undo| undo_view(&u)) =~= Seq::<UndoV>::empty());
        assert forall|tt: u64| old(db).active(tt) implies #[trigger] db.owner(tt) == old(db).owner(tt) by {
            let j = choose|j: int| 0 <= j < old(db).txns@.len() && (#[trigger] old(db).txns@[j]).id == tt;
            assert(db.txns@[j].id == tt);
            let k = choose|k: int| 0 <= k < db.txns@.len() && (#[trigger] db.txns@[k]).id == tt;
            if k != j {
                if k == last {
                    assert(old(db).txns@[j].id < old(db).next_id);
                } else if k < j {
                    assert(old(db).txns@[k].id != old(db).txns@[j].id);
                } else {
                    assert(old(db).txns@[j].id != old(db).txns@[k].id);
                }
            }
            let m = choose|m: int| 0 <= m < old(db).txns@.len() && (#[trigger] old(db).txns@[m]).id == tt;
            if m != j {
                if m < j { assert(old(db).txns@[m].id != old(db).txns@[j].id); } else { assert(old(db).txns@[j].id != old(db).txns@[m].id); }
            }
        }
        assert forall|tt: u64| #[trigger] db.busy(tt) <==> old(db).busy(tt) || tt == thread by {
            if db.busy(tt) {
                let j = choose|j: int| 0 <= j < db.txns@.len() && (#[trigger] db.txns@[j]).thread == tt;
                if j < last {
                    assert(old(db).txns@[j].thread == tt);
                }
            }
            if old(db).busy(tt) {
                let j = choose|j: int| 0 <= j < old(db).txns@.len() && (#[trigger] old(db).txns@[j]).thread == tt;
                assert(db.txns@[j].thread == tt);
            }
            if tt == thread {
                assert(db.txns@[last].thread == tt);
            }
        }
    }
    Ok(t)
}

/// Commits a live transaction: its changes stay and its locks are released.
pub fn commit_transaction(db: &mut Database, transaction_state: TxnState, thread: u64) -> (r: Result<(), ErrCode>)
    requires
        old(db).wf(),
    ensures
        final(db).wf(),
        r is Err <==> !old(db).active(transaction_state.id()) || old(db).owner(transaction_state.id()) != thread,
        r is Err ==> r == Err::<(), ErrCode>(ErrCode::TxnDne) && *final(db) == *old(db),
        r is Ok ==> !final(db).active(transaction_state.id()) && final(db).lock_free(transaction_state.id()),
        r is Ok ==> !final(db).busy(thread),
        forall|t: u64| t != thread ==> (#[trigger] final(db).busy(t) <==> old(db).busy(t)),
        final(db).keeps_indexes(old(db)),
        final(db).keeps_handles(old(db)),
        final(db).bound() == old(db).bound(),
        forall|t: u64| t != transaction_state.id() ==> (#[trigger] final(db).active(t) <==> old(db).active(t)),
        forall|n: Seq<char>| #[trigger] final(db).has_name(n) <==> old(db).has_name(n),
        forall|id: u64| old(db).has_index(id) ==> #[trigger] final(db).records(id) == old(db).records(id),
{
    let ti = match db.find_txn(transaction_state.id) {
        None => return Err(ErrCode::TxnDne),
        Some(ti) => ti,
    };
    if db.txns[ti].thread != thread {
        proof {
            assert forall|k: int| 0 <= k < db.txns@.len() && (#[trigger] db.txns@[k]).id == transaction_state.id implies k == ti by {
                if k < ti { assert(db.txns@[k].id != db.txns@[ti as int].id); }
                if k > ti { assert(db.txns@[ti as int].id != db.txns@[k].id); }
            }
        }
        return Err(ErrCode::TxnDne);
    }
    proof {
        assert forall|k: int| 0 <= k < db.txns@.len() && (#[trigger] db.txns@[k]).id == transaction_state.id implies k == ti by {
            if k < ti { assert(db.txns@[k].id != db.txns@[ti as int].id); }
            if k > ti { assert(db.txns@[ti as int].id != db.txns@[k].id); }
        }
    }
    let ghost before = *db;
    let _ = db.finish(ti);
    proof {
        Database::lemma_same_indexes(db, &before);
        assert forall|n: Seq<char>| #[trigger] db.has_name(n) <==> old(db).has_name(n) by {}
        assert forall|x: u64| old(db).has_index(x) implies #[trigger] db.records(x) == old(db).records(x) by {}
    }
    Ok(())
}

/// Aborts a live transaction: its changes are undone and its locks released.
pub fn abort_transaction(db: &mut Database, transaction_state: TxnState, thread: u64) -> (r: Result<(), ErrCode>)
    requires
        old(db).wf(),
    ensures
        final(db).wf(),
        r is Err <==> !old(db).active(transaction_state.id()) || old(db).owner(transaction_state.id()) != thread,
        r is Err ==> r == Err::<(), ErrCode>(ErrCode::TxnDne) && *final(db) == *old(db),
        r is Ok ==> !final(db).active(transaction_state.id()) && final(db).lock_free(transaction_state.id()),
        r is Ok ==> !final(db).busy(thread),
        r is Ok ==> forall|x: u64, y: RecV| old(db).has_index(x) ==> (#[trigger] final(db).records(x).contains(y)
            <==> undone(old(db), old(db).log(transaction_state.id()), x, y)),
        forall|t: u64| t != thread ==> (#[trigger] final(db).busy(t) <==> old(db).busy(t)),
        final(db).keeps_indexes(old(db)),
        final(db).keeps_handles(old(db)),
        final(db).bound() == old(db).bound(),
        forall|t: u64| t != transaction_state.id() ==> (#[trigger] final(db).active(t) <==> old(db).active(t)),
        forall|n: Seq<char>| #[trigger] final(db).has_name(n) <==> old(db).has_name(n),
{
    let ti = match db.find_txn(transaction_state.id) {
        None => return Err(ErrCode::TxnDne),
        Some(ti) => ti,
    };
    if db.txns[ti].thread != thread {
        proof {
            assert forall|k: int| 0 <= k < db.txns@.len() && (#[trigger] db.txns@[k]).id == transaction_state.id implies k == ti by {
                if k < ti { assert(db.txns@[k].id != db.txns@[ti as int].id); }
                if k > ti { assert(db.txns@[ti as int].id != db.txns@[k].id); }
            }
        }
        return Err(ErrCode::TxnDne);
    }
    proof {
        assert forall|k: int| 0 <= k < db.txns@.len() && (#[trigger] db.txns@[k]).id == transaction_state.id implies k == ti by {
            if k < ti { assert(db.txns@[k].id != db.txns@[ti as int].id); }
            if k > ti { assert(db.txns@[ti as int].id != db.txns@[k].id); }
        }
    }
    let ghost before = *db;
    let undo = db.finish(ti);
    let ghost mid = *db;
    db.rollback(&undo);
    proof {
        Database::lemma_same_indexes(&mid, &before);
        assert forall|x: u64, y: RecV| old(db).has_index(x) implies (#[trigger] db.records(x).contains(y)
            <==> undone(old(db), old(db).log(transaction_state.id), x, y)) by {
            Database::lemma_undone_same(&mid, old(db), old(db).log(transaction_state.id), x, y);
        }
        assert forall|n: Seq<char>| #[trigger] mid.has_name(n) <==> old(db).has_name(n) by {}
        assert(db.lock_free(transaction_state.id)) by {
            assert(db.table == mid.table);
        }
    }
    Ok(())
}

/// The payload of the first record of `key`, which becomes the handle's position.
///
/// When `key` has no record the position is set just before where `key` would
/// sort, so that `get_next` goes on with the first record after it.
pub fn get(db: &mut Database, index_state: &mut IdxState, transaction_state: Option<&TxnState>, key: Key) -> (r: Result<Payload, ErrCode>)
    requires
        old(db).wf(),
    ensures
        final(db).wf(),
        r == Err::<Payload, ErrCode>(ErrCode::Deadlock) ==> final(db).undid(old(db), scope_of(transaction_state)->0),
        old(db).usable(old(index_state), scope_of(transaction_state)) && !old(db).may_lock(
            scope_of(transaction_state),
            old(index_state).index_id(),
            false,
        ) ==> (r == Err::<Payload, ErrCode>(ErrCode::Deadlock) <==> scope_of(transaction_state) is Some && old(db).closes_cycle(
            scope_of(transaction_state)->0,
            old(index_state).index_id(),
            false,
        )),
        final(db).call_outcome(
            old(db),
            scope_of(transaction_state),
            r == Err::<Payload, ErrCode>(ErrCode::Deadlock),
            r == Err::<Payload, ErrCode>(ErrCode::WouldBlock),
        ),
        old(db).usable(old(index_state), scope_of(transaction_state)) && old(db).may_lock(
            scope_of(transaction_state),
            old(index_state).index_id(),
            false,
        ) ==> final(db).lock_after(old(db), scope_of(transaction_state), old(index_state).index_id(), false),
        r != Err::<Payload, ErrCode>(ErrCode::Deadlock) ==> forall|x: u64| old(db).has_index(x) ==> #[trigger] final(db).records(x)
            == old(db).records(x),
        final(index_state).index_id() == old(index_state).index_id(),
        final(db).bound() == old(db).bound(),
        old(index_state).scopes_below(old(db).bound()) ==> final(index_state).scopes_below(final(db).bound()),
        final(index_state).handle_id() == old(index_state).handle_id(),
        final(db).is_open(final(index_state)) == old(db).is_open(old(index_state)),
        forall|t: u64| Some(t) != scope_of(transaction_state) ==> (#[trigger] final(db).active(t) <==> old(db).active(t)),
        forall|n: Seq<char>| #[trigger] final(db).has_name(n) <==> old(db).has_name(n),
        !old(db).usable(old(index_state), scope_of(transaction_state)) ==> r == Err::<Payload, ErrCode>(
            if scope_of(transaction_state) is Some && !old(db).active(scope_of(transaction_state)->0) {
                ErrCode::TxnDne
            } else {
                ErrCode::DbDne
            },
        ) && *final(db) == *old(db),
        old(db).usable(old(index_state), scope_of(transaction_state)) && !old(db).may_lock(
            scope_of(transaction_state),
            old(index_state).index_id(),
            false,
        ) ==> r == Err::<Payload, ErrCode>(ErrCode::WouldBlock) || r == Err::<Payload, ErrCode>(ErrCode::Deadlock),
        old(db).usable(old(index_state), scope_of(transaction_state)) && old(db).may_lock(
            scope_of(transaction_state),
            old(index_state).index_id(),
            false,
        ) ==> {
            let recs = old(db).records(old(index_state).index_id());
            &&& final(db).records(old(index_state).index_id()) == recs
            &&& (r is Ok <==> has_key(recs, key@))
            &&& (r is Err ==> r == Err::<Payload, ErrCode>(ErrCode::KeyNotFound))
            &&& (r is Ok ==> recs.contains((key@, utf8(r->Ok_0@))))
            &&& (r is Ok ==> forall|y: RecV| #[trigger] recs.contains(y) && y.0 == key@ ==> !lex_lt(y.1, utf8(r->Ok_0@)))
            &&& final(index_state).start(scope_of(transaction_state)) == Some(
                (key@, if r is Ok { utf8(r->Ok_0@) } else { Seq::<u8>::empty() }),
            )
        },
{
    proof {
        Database::lemma_same_indexes(db, db);
        Database::lemma_same_txns(db, db);
        Database::lemma_same_locks(db, db);
    }
    let i = db.locate(index_state, transaction_state)?;
    let scope = scope_id(transaction_state);
    let id = index_state.index;
    proof {
        db.lemma_unique_id(i as int);
    }
    let entered = db.enter(scope, id, false);
    if let Err(e) = entered {
        proof {
            if e == ErrCode::WouldBlock {
                Database::lemma_same_locks(db, old(db));
            }
        }
        return Err(e);
    }
    proof {
        if scope is None {
            Database::lemma_same_locks(db, old(db));
        }
    }
    let found = db.indexes[i].store.lookup_first(&key);
    match found {
        Some(p) => {
            index_state.set_cursor(scope, Some((key, p.clone())));
            Ok(p)
        },
        None => {
            let empty = String::new();
            assert(utf8(empty@) =~= Seq::<u8>::empty());
            index_state.set_cursor(scope, Some((key, empty)));
            Err(ErrCode::KeyNotFound)
        },
    }
}

/// The least record after the handle's position, which becomes the new position.
pub fn get_next(db: &mut Database, index_state: &mut IdxState, transaction_state: Option<&TxnState>) -> (r: Result<(Key, Payload), ErrCode>)
    requires
        old(db).wf(),
    ensures
        final(db).wf(),
        r == Err::<(Key, Payload), ErrCode>(ErrCode::Deadlock) ==> final(db).undid(old(db), scope_of(transaction_state)->0),
        old(db).usable(old(index_state), scope_of(transaction_state)) && !old(db).may_lock(
            scope_of(transaction_state),
            old(index_state).index_id(),
            false,
        ) ==> (r == Err::<(Key, Payload), ErrCode>(ErrCode::Deadlock) <==> scope_of(transaction_state) is Some && old(db).closes_cycle(
            scope_of(transaction_state)->0,
            old(index_state).index_id(),
            false,
        )),
        final(db).call_outcome(
            old(db),
            scope_of(transaction_state),
            r == Err::<(Key, Payload), ErrCode>(ErrCode::Deadlock),
            r == Err::<(Key, Payload), ErrCode>(ErrCode::WouldBlock),
        ),
        old(db).usable(old(index_state), scope_of(transaction_state)) && old(db).may_lock(
            scope_of(transaction_state),
            old(index_state).index_id(),
            false,
        ) ==> final(db).lock_after(old(db), scope_of(transaction_state), old(index_state).index_id(), false),
        r != Err::<(Key, Payload), ErrCode>(ErrCode::Deadlock) ==> forall|x: u64| old(db).has_index(x) ==> #[trigger] final(db).records(x)
            == old(db).records(x),
        final(index_state).index_id() == old(index_state).index_id(),
        final(db).bound() == old(db).bound(),
        old(index_state).scopes_below(old(db).bound()) ==> final(index_state).scopes_below(final(db).bound()),
        final(index_state).handle_id() == old(index_state).handle_id(),
        final(db).is_open(final(index_state)) == old(db).is_open(old(index_state)),
        forall|t: u64| Some(t) != scope_of(transaction_state) ==> (#[trigger] final(db).active(t) <==> old(db).active(t)),
        forall|n: Seq<char>| #[trigger] final(db).has_name(n) <==> old(db).has_name(n),
        !old(db).usable(old(index_state), scope_of(transaction_state)) ==> r == Err::<(Key, Payload), ErrCode>(
            if scope_of(transaction_state) is Some && !old(db).active(scope_of(transaction_state)->0) {
                ErrCode::TxnDne
            } else {
                ErrCode::DbDne
            },
        ) && *final(db) == *old(db),
        old(db).usable(old(index_state), scope_of(transaction_state)) && !old(db).may_lock(
            scope_of(transaction_state),
            old(index_state).index_id(),
            false,
        ) ==> r == Err::<(Key, Payload), ErrCode>(ErrCode::WouldBlock) || r == Err::<(Key, Payload), ErrCode>(ErrCode::Deadlock),
        old(db).usable(old(index_state), scope_of(transaction_state)) && old(db).may_lock(
            scope_of(transaction_state),
            old(index_state).index_id(),
            false,
        ) ==> {
            let recs = old(db).records(old(index_state).index_id());
            let from = old(index_state).start(scope_of(transaction_state));
            &&& final(db).records(old(index_state).index_id()) == recs
            &&& (r is Err <==> !has_next(recs, from))
            &&& (r is Err ==> r == Err::<(Key, Payload), ErrCode>(ErrCode::DbEnd) && final(index_state).start(scope_of(transaction_state)) == from)
            &&& (r is Ok ==> is_next(recs, from, (r->Ok_0.0@, utf8(r->Ok_0.1@))))
            &&& (r is Ok ==> final(index_state).start(scope_of(transaction_state)) == Some((r->Ok_0.0@, utf8(r->Ok_0.1@))))
        },
{
    proof {
        Database::lemma_same_indexes(db, db);
        Database::lemma_same_txns(db, db);
        Database::lemma_same_locks(db, db);
    }
    let i = db.locate(index_state, transaction_state)?;
    let scope = scope_id(transaction_state);
    let id = index_state.index;
    proof {
        db.lemma_unique_id(i as int);
    }
    let entered = db.enter(scope, id, false);
    if let Err(e) = entered {
        proof {
            if e == ErrCode::WouldBlock {
                Database::lemma_same_locks(db, old(db));
            }
        }
        return Err(e);
    }
    proof {
        if scope is None {
            Database::lemma_same_locks(db, old(db));
        }
    }
    let next = match index_state.find_cursor(scope) {
        None => db.indexes[i].store.lookup_next(None),
        Some(c) => match &index_state.cursors[c].pos {
            None => db.indexes[i].store.lookup_next(None),
            Some((k, p)) => db.indexes[i].store.lookup_next(Some((k, p))),
        },
    };
    match next {
        Some((k, p)) => {
            index_state.set_cursor(scope, Some((copy_key(&k), p.clone())));
            Ok((k, p))
        },
        None => Err(ErrCode::DbEnd),
    }
}

/// Adds the record (key, payload) to the handle's index. A record already there is
/// refused with `EntryExists`; a key of another type than the index's with `Failure`.
#[verifier::rlimit(100)]
pub fn insert_record(
    db: &mut Database,
    index_state: &mut IdxState,
    transaction_state: Option<&TxnState>,
    key: Key,
    payload: Payload,
) -> (r: Result<(), ErrCode>)
    requires
        old(db).wf(),
    ensures
        final(db).wf(),
        r == Err::<(), ErrCode>(ErrCode::Deadlock) ==> final(db).undid(old(db), scope_of(transaction_state)->0),
        r != Err::<(), ErrCode>(ErrCode::Deadlock) ==> forall|t: u64| scope_of(transaction_state) != Some(t) && old(db).active(t)
            ==> #[trigger] final(db).log(t) == old(db).log(t),
        r is Ok && scope_of(transaction_state) is Some ==> final(db).log(scope_of(transaction_state)->0) == old(db).log(
            scope_of(transaction_state)->0,
        ).push((old(index_state).index_id(), (key@, utf8(payload@)), true)),
        r is Err && r != Err::<(), ErrCode>(ErrCode::Deadlock) && scope_of(transaction_state) is Some ==> final(db).log(
            scope_of(transaction_state)->0,
        ) == old(db).log(scope_of(transaction_state)->0),
        old(db).usable(old(index_state), scope_of(transaction_state)) && !old(db).may_lock(
            scope_of(transaction_state),
            old(index_state).index_id(),
            true,
        ) ==> (r == Err::<(), ErrCode>(ErrCode::Deadlock) <==> scope_of(transaction_state) is Some && old(db).closes_cycle(
            scope_of(transaction_state)->0,
            old(index_state).index_id(),
            true,
        )),
        final(db).call_outcome(
            old(db),
            scope_of(transaction_state),
            r == Err::<(), ErrCode>(ErrCode::Deadlock),
            r == Err::<(), ErrCode>(ErrCode::WouldBlock),
        ),
        old(db).usable(old(index_state), scope_of(transaction_state)) && old(db).may_lock(
            scope_of(transaction_state),
            old(index_state).index_id(),
            true,
        ) ==> final(db).lock_after(old(db), scope_of(transaction_state), old(index_state).index_id(), true),
        *final(index_state) == *old(index_state),
        forall|t: u64| Some(t) != scope_of(transaction_state) ==> (#[trigger] final(db).active(t) <==> old(db).active(t)),
        forall|n: Seq<char>| #[trigger] final(db).has_name(n) <==> old(db).has_name(n),
        !old(db).usable(old(index_state), scope_of(transaction_state)) ==> r == Err::<(), ErrCode>(
            if scope_of(transaction_state) is Some && !old(db).active(scope_of(transaction_state)->0) {
                ErrCode::TxnDne
            } else {
                ErrCode::DbDne
            },
        ) && *final(db) == *old(db),
        old(db).usable(old(index_state), scope_of(transaction_state)) && !old(db).may_lock(
            scope_of(transaction_state),
            old(index_state).index_id(),
            true,
        ) ==> r == Err::<(), ErrCode>(ErrCode::WouldBlock) || r == Err::<(), ErrCode>(ErrCode::Deadlock),
        old(db).usable(old(index_state), scope_of(transaction_state)) && old(db).may_lock(
            scope_of(transaction_state),
            old(index_state).index_id(),
            true,
        ) ==> {
            let recs = old(db).records(old(index_state).index_id());
            let x = (key@, utf8(payload@));
            &&& forall|x: u64| old(db).has_index(x) && x != old(index_state).index_id() ==> (#[trigger] final(db).records(x)) == old(db).records(x)
            &&& (recs.contains(x) ==> r == Err::<(), ErrCode>(ErrCode::EntryExists))
            &&& (key_type_of(key@) != old(db).key_type(old(index_state).index_id()) && !recs.contains(x) ==> r == Err::<(), ErrCode>(ErrCode::Failure))
            &&& (key_type_of(key@) != old(db).key_type(old(index_state).index_id()) ==> final(db).records(old(index_state).index_id()) == recs)
            &&& (key_type_of(key@) == old(db).key_type(old(index_state).index_id()) ==> {
                &&& (r is Err <==> recs.contains(x))
                &&& (r is Err ==> r == Err::<(), ErrCode>(ErrCode::EntryExists) && final(db).records(old(index_state).index_id()) == recs)
                &&& (r is Ok ==> forall|y: RecV| #[trigger] final(db).records(old(index_state).index_id()).contains(y)
                    <==> recs.contains(y) || y == x)
            })
        },
{
    proof {
        Database::lemma_same_indexes(db, db);
        Database::lemma_same_txns(db, db);
        Database::lemma_same_locks(db, db);
    }
    let i = db.locate(index_state, transaction_state)?;
    let scope = scope_id(transaction_state);
    let id = index_state.index;
    proof {
        db.lemma_unique_id(i as int);
    }
    let entered = db.enter(scope, id, true);
    if let Err(e) = entered {
        proof {
            if e == ErrCode::WouldBlock {
                Database::lemma_same_locks(db, old(db));
            }
        }
        return Err(e);
    }
    proof {
        if scope is None {
            Database::lemma_same_locks(db, old(db));
        }
    }
    if key.key_type() != db.indexes[i].key_type {
        if db.indexes[i].store.contains_rec(&key, &payload) {
            return Err(ErrCode::EntryExists);
        }
        return Err(ErrCode::Failure);
    }
    let undo = Undo { index: id, key: copy_key(&key), payload: payload.clone(), inserted: true };
    let ghost mid = *db;
    let mut e = db.indexes.remove(i);
    let res = e.store.insert(key, payload);
    db.indexes.insert(i, e);
    proof {
        assert(db.indexes@[i as int].handles@ == mid.indexes@[i as int].handles@);
        Database::lemma_update(&mid, db, i as int);
        assert forall|x: u64| old(db).has_index(x) && x != id implies #[trigger] db.records(x) == old(db).records(x) by {
            assert(mid.has_index(x));
        }
    }
    let ghost after = *db;
    if res.is_ok() {
        if let Some(t) = scope {
            let ghost mid2 = *db;
            db.log_undo(t, undo);
            proof {
                assert forall|n: Seq<char>| #[trigger] db.has_name(n) <==> mid2.has_name(n) by {}
                assert(db.records(id) == mid2.records(id));
            }
        }
    }
    proof {
        assert forall|x: u64| old(db).has_index(x) && x != id implies #[trigger] db.records(x) == old(db).records(x) by {
            assert(db.records(x) == after.records(x));
        }
    }
    proof {
        Database::lemma_same_indexes(db, &after);
        Database::lemma_same_locks(db, &after);
        Database::lemma_keeps_trans(db, &after, &mid);
        Database::lemma_keeps_trans(db, &mid, old(db));
    }
    res
}

/// Removes the record (key, payload), or every record of `key` when no payload or an
/// empty one is given.
#[verifier::rlimit(100)]
pub fn delete_record(
    db: &mut Database,
    index_state: &mut IdxState,
    transaction_state: Option<&TxnState>,
    key: Key,
    payload: Option<Payload>,
) -> (r: Result<(), ErrCode>)
    requires
        old(db).wf(),
    ensures
        final(db).wf(),
        r == Err::<(), ErrCode>(ErrCode::Deadlock) ==> final(db).undid(old(db), scope_of(transaction_state)->0),
        r != Err::<(), ErrCode>(ErrCode::Deadlock) ==> forall|t: u64| scope_of(transaction_state) != Some(t) && old(db).active(t)
            ==> #[trigger] final(db).log(t) == old(db).log(t),
        r is Err && r != Err::<(), ErrCode>(ErrCode::Deadlock) && scope_of(transaction_state) is Some ==> final(db).log(
            scope_of(transaction_state)->0,
        ) == old(db).log(scope_of(transaction_state)->0),
        r is Ok && scope_of(transaction_state) is Some ==> {
            let t = scope_of(transaction_state)->0;
            let n = old(db).log(t).len();
            let added = final(db).log(t).subrange(n as int, final(db).log(t).len() as int);
            &&& n <= final(db).log(t).len()
            &&& final(db).log(t).subrange(0, n as int) == old(db).log(t)
            &&& forall|j: int| 0 <= j < added.len() ==> (#[trigger] added[j]).0 == old(index_state).index_id() && !added[j].2
                && old(db).records(old(index_state).index_id()).contains(added[j].1) && added[j].1.0 == key@
            &&& forall|y: RecV| #[trigger] old(db).records(old(index_state).index_id()).contains(y) && y.0 == key@ && (match payload {
                Some(p) if utf8(p@).len() > 0 => y.1 == utf8(p@),
                _ => true,
            }) ==> exists|j: int| 0 <= j < added.len() && added[j].1 == y
        },
        old(db).usable(old(index_state), scope_of(transaction_state)) && !old(db).may_lock(
            scope_of(transaction_state),
            old(index_state).index_id(),
            true,
        ) ==> (r == Err::<(), ErrCode>(ErrCode::Deadlock) <==> scope_of(transaction_state) is Some && old(db).closes_cycle(
            scope_of(transaction_state)->0,
            old(index_state).index_id(),
            true,
        )),
        final(db).call_outcome(
            old(db),
            scope_of(transaction_state),
            r == Err::<(), ErrCode>(ErrCode::Deadlock),
            r == Err::<(), ErrCode>(ErrCode::WouldBlock),
        ),
        old(db).usable(old(index_state), scope_of(transaction_state)) && old(db).may_lock(
            scope_of(transaction_state),
            old(index_state).index_id(),
            true,
        ) ==> final(db).lock_after(old(db), scope_of(transaction_state), old(index_state).index_id(), true),
        *final(index_state) == *old(index_state),
        forall|t: u64| Some(t) != scope_of(transaction_state) ==> (#[trigger] final(db).active(t) <==> old(db).active(t)),
        forall|n: Seq<char>| #[trigger] final(db).has_name(n) <==> old(db).has_name(n),
        !old(db).usable(old(index_state), scope_of(transaction_state)) ==> r == Err::<(), ErrCode>(
            if scope_of(transaction_state) is Some && !old(db).active(scope_of(transaction_state)->0) {
                ErrCode::TxnDne
            } else {
                ErrCode::DbDne
            },
        ) && *final(db) == *old(db),
        old(db).usable(old(index_state), scope_of(transaction_state)) && !old(db).may_lock(
            scope_of(transaction_state),
            old(index_state).index_id(),
            true,
        ) ==> r == Err::<(), ErrCode>(ErrCode::WouldBlock) || r == Err::<(), ErrCode>(ErrCode::Deadlock),
        old(db).usable(old(index_state), scope_of(transaction_state)) && old(db).may_lock(
            scope_of(transaction_state),
            old(index_state).index_id(),
            true,
        ) ==> {
            let recs = old(db).records(old(index_state).index_id());
            let fin = final(db).records(old(index_state).index_id());
            &&& forall|x: u64| old(db).has_index(x) && x != old(index_state).index_id() ==> (#[trigger] final(db).records(x)) == old(db).records(x)
            &&& (match payload {
                Some(p) if utf8(p@).len() > 0 => {
                    &&& (r is Err <==> !recs.contains((key@, utf8(p@))))
                    &&& (r is Err ==> r == Err::<(), ErrCode>(ErrCode::EntryDne) && fin == recs)
                    &&& (r is Ok ==> forall|y: RecV| #[trigger] fin.contains(y) <==> recs.contains(y) && y != (key@, utf8(p@)))
                },
                _ => {
                    &&& (r is Err <==> !has_key(recs, key@))
                    &&& (r is Err ==> r == Err::<(), ErrCode>(ErrCode::KeyNotFound) && fin == recs)
                    &&& (r is Ok ==> forall|y: RecV| #[trigger] fin.contains(y) <==> recs.contains(y) && y.0 != key@)
                },
            })
        },
{
    proof {
        Database::lemma_same_indexes(db, db);
        Database::lemma_same_txns(db, db);
        Database::lemma_same_locks(db, db);
    }
    let i = db.locate(index_state, transaction_state)?;
    let scope = scope_id(transaction_state);
    let id = index_state.index;
    proof {
        db.lemma_unique_id(i as int);
    }
    let entered = db.enter(scope, id, true);
    if let Err(e) = entered {
        proof {
            if e == ErrCode::WouldBlock {
                Database::lemma_same_locks(db, old(db));
            }
        }
        return Err(e);
    }
    proof {
        if scope is None {
            Database::lemma_same_locks(db, old(db));
        }
    }
    let exact = match &payload {
        Some(p) => p.as_str().as_bytes().len() > 0,
        None => false,
    };
    assert(exact == (payload is Some && utf8(payload->0@).len() > 0));
    let ghost mid = *db;
    let ghost recs0 = old(db).records(id);
    proof {
        mid.lemma_unique_id(i as int);
        assert(mid.indexes@[i as int].store@ == recs0);
    }
    let mut e = db.indexes.remove(i);
    let (res, removed) = if exact {
        let p = payload.unwrap();
        let res = e.store.delete_exact(&key, &p);
        let mut removed: Vec<String> = Vec::new();
        removed.push(p);
        proof {
            assert(utf8(removed@[0]@) == utf8(payload->0@));
            if res is Ok {
                assert(forall|j: int| 0 <= j < removed@.len() ==> recs0.contains((key@, utf8(#[trigger] removed@[j]@))));
                assert forall|y: RecV| #[trigger] recs0.contains(y) && y.0 == key@ && y.1 == utf8(payload->0@)
                    implies exists|j: int| 0 <= j < removed@.len() && utf8(removed@[j]@) == y.1 by {
                    assert(utf8(removed@[0]@) == y.1);
                }
            }
        }
        (res, removed)
    } else {
        let removed = e.store.payloads_of(&key);
        proof {
            assert(forall|j: int| 0 <= j < removed@.len() ==> recs0.contains((key@, utf8(#[trigger] removed@[j]@))));
        }
        (e.store.delete_all(&key), removed)
    };
    db.indexes.insert(i, e);
    proof {
        assert(db.indexes@[i as int].handles@ == mid.indexes@[i as int].handles@);
        Database::lemma_update(&mid, db, i as int);
        assert(mid.records(id) == old(db).records(id));
        assert(db.records(id) == db.indexes@[i as int].store@);
        assert forall|x: u64| old(db).has_index(x) && x != id implies #[trigger] db.records(x) == old(db).records(x) by {
            assert(mid.has_index(x));
        }
    }
    let ghost after = *db;
    if res.is_ok() {
        if let Some(t) = scope {
            let mut j: usize = 0;
            proof {
                Database::lemma_same_txns(db, &after);
            }
            while j < removed.len()
                invariant
                    db.wf(),
                    db.indexes == after.indexes,
                    forall|n: Seq<char>| #[trigger] db.has_name(n) <==> old(db).has_name(n),
                    forall|x: u64| #[trigger] db.active(x) <==> after.active(x),
                    db.table == after.table,
                    db.next_id == after.next_id,
                    db.keeps_txns(&after),
                    after.active(t),
                    forall|x: u64| x != t && after.active(x) ==> #[trigger] db.log(x) == after.log(x),
                    db.log(t).len() == after.log(t).len() + j,
                    j <= removed@.len(),
                    db.log(t).subrange(0, after.log(t).len() as int) == after.log(t),
                    forall|m: int| 0 <= m < j ==> #[trigger] db.log(t)[after.log(t).len() + m] == (id, (key@, utf8(removed@[m]@)), false),
                decreases removed@.len() - j,
            {
                let u = Undo { index: id, key: copy_key(&key), payload: removed[j].clone(), inserted: false };
                let ghost before = *db;
                let ghost uv = undo_view(&u);
                assert(uv == (id, (key@, utf8(removed@[j as int]@)), false));
                db.log_undo(t, u);
                proof {
                    assert(db.log(t) == before.log(t).push(uv));
                    assert(db.log(t).subrange(0, after.log(t).len() as int) =~= before.log(t).subrange(0, after.log(t).len() as int));
                }
                proof {
                    assert forall|n: Seq<char>| #[trigger] db.has_name(n) <==> before.has_name(n) by {}
                    Database::lemma_same_indexes(db, &before);
                    Database::lemma_same_indexes(&before, &after);
                    Database::lemma_keeps_trans(db, &before, &after);
                }
                j = j + 1;
            }
            proof {
                assert(after.txns@ == old(db).txns@);
                assert(after.log(t) == old(db).log(t));
                let n = old(db).log(t).len();
                let added = db.log(t).subrange(n as int, db.log(t).len() as int);
                assert forall|m: int| 0 <= m < added.len() implies (#[trigger] added[m]).0 == id && !added[m].2
                    && recs0.contains(added[m].1) && added[m].1.0 == key@ by {
                    assert(added[m] == db.log(t)[n + m]);
                    assert(recs0.contains((key@, utf8(removed@[m]@))));
                }
                assert forall|y: RecV| #[trigger] recs0.contains(y) && y.0 == key@ && (match payload {
                    Some(p) if utf8(p@).len() > 0 => y.1 == utf8(p@),
                    _ => true,
                }) implies exists|m: int| 0 <= m < added.len() && added[m].1 == y by {
                    let m = choose|m: int| 0 <= m < removed@.len() && utf8(removed@[m]@) == y.1;
                    assert(added[m] == db.log(t)[n + m]);
                    assert(added[m].1 == y);
                }
            }
        }
        proof {
            assert(db.records(id) == after.records(id));
            assert forall|x: u64| old(db).has_index(x) && x != id implies #[trigger] db.records(x) == old(db).records(x) by {
                assert(db.records(x) == after.records(x));
            }
        }
    }
    proof {
        Database::lemma_same_indexes(db, &after);
        Database::lemma_same_locks(db, &after);
        if res.is_err() || scope is None {
            Database::lemma_same_txns(db, &after);
        }
        Database::lemma_keeps_trans(db, &after, &mid);
        Database::lemma_keeps_trans(db, &mid, old(db));
    }
    res
}

} // verus!
