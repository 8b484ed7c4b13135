use vstd::prelude::*;

verus! {

/// A lock held by a transaction on an index.
pub struct Lock {
    pub txn: u64,
    pub index: u64,
    pub exclusive: bool,
}

/// What a lock request came to.
#[derive(Debug, Clone, Copy, PartialEq, Eq, Structural)]
pub enum Grant {
    /// The lock is held now.
    Granted,
    /// Another transaction holds a conflicting lock; the wait is recorded.
    Wait,
    /// Waiting would close a cycle of waits: the requester must abort.
    Deadlock,
}

/// The granted locks and the wait-for edges (waiter, holder) between transactions.
pub struct LockTable {
    pub locks: Vec<Lock>,
    pub waits: Vec<(u64, u64)>,
}

/// A lock of another scope on `index` that excludes a lock of the given mode.
pub open spec fn conflicts(l: Lock, txn: Option<u64>, index: u64, exclusive: bool) -> bool {
    l.index == index && txn != Some(l.txn) && (exclusive || l.exclusive)
}

pub open spec fn covers(l: Lock, txn: u64, index: u64, exclusive: bool) -> bool {
    l.txn == txn && l.index == index && (l.exclusive || !exclusive)
}

pub open spec fn has_lock(locks: Seq<Lock>, txn: u64, index: u64, exclusive: bool) -> bool {
    exists|i: int| 0 <= i < locks.len() && covers(#[trigger] locks[i], txn, index, exclusive)
}

pub open spec fn blocked(locks: Seq<Lock>, txn: Option<u64>, index: u64, exclusive: bool) -> bool {
    exists|i: int| 0 <= i < locks.len() && conflicts(#[trigger] locks[i], txn, index, exclusive)
}

/// The transactions whose locks keep `txn` from a lock of this mode on `index`.
pub open spec fn blockers(locks: Seq<Lock>, txn: u64, index: u64, exclusive: bool) -> Set<u64> {
    Set::new(
        |t: u64| exists|i: int| 0 <= i < locks.len() && conflicts(#[trigger] locks[i], Some(txn), index, exclusive) && locks[i].txn == t,
    )
}

/// How many granted locks conflict with the request.
pub open spec fn n_conflicts(locks: Seq<Lock>, txn: u64, index: u64, exclusive: bool) -> nat
    decreases locks.len(),
{
    if locks.len() == 0 {
        0
    } else {
        n_conflicts(locks.drop_last(), txn, index, exclusive) + if conflicts(locks.last(), Some(txn), index, exclusive) {
            1nat
        } else {
            0nat
        }
    }
}

/// The wait-for edges once `txn` waits for the holders of the conflicting locks.
pub open spec fn wait_edges(locks: Seq<Lock>, waits: Seq<(u64, u64)>, txn: u64, index: u64, exclusive: bool) -> Set<(u64, u64)> {
    Set::new(|e: (u64, u64)| waits.contains(e) || (e.0 == txn && blockers(locks, txn, index, exclusive).contains(e.1)))
}

/// One more round of following the edges of a set.
pub open spec fn step_in(edges: Set<(u64, u64)>, s: Set<u64>) -> Set<u64> {
    s.union(Set::new(|b: u64| exists|a: u64| s.contains(a) && #[trigger] edges.contains((a, b))))
}

pub open spec fn reach_in(edges: Set<(u64, u64)>, s: Set<u64>, n: nat) -> Set<u64>
    decreases n,
{
    if n == 0 {
        s
    } else {
        step_in(edges, reach_in(edges, s, (n - 1) as nat))
    }
}

/// Waiting for the holders of the conflicting locks would let `txn` reach itself
/// through the wait-for edges: a cycle of waits.
pub open spec fn closes_cycle(table: &LockTable, txn: u64, index: u64, exclusive: bool) -> bool {
    reach_in(
        wait_edges(table.locks@, table.waits@, txn, index, exclusive),
        blockers(table.locks@, txn, index, exclusive),
        (table.waits@.len() + n_conflicts(table.locks@, txn, index, exclusive)) as nat,
    ).contains(txn)
}

pub proof fn lemma_reach_set(edges: Seq<(u64, u64)>, e: Set<(u64, u64)>, s: Set<u64>, n: nat)
    requires
        forall|x: (u64, u64)| #[trigger] edges.contains(x) <==> e.contains(x),
    ensures
        reach(edges, s, n) == reach_in(e, s, n),
    decreases n,
{
    if n > 0 {
        lemma_reach_set(edges, e, s, (n - 1) as nat);
        let r = reach(edges, s, (n - 1) as nat);
        assert forall|b: u64| #[trigger] step(edges, r).contains(b) <==> step_in(e, r).contains(b) by {
            if exists|i: int| 0 <= i < edges.len() && #[trigger] edges[i].1 == b && r.contains(edges[i].0) {
                let i = choose|i: int| 0 <= i < edges.len() && #[trigger] edges[i].1 == b && r.contains(edges[i].0);
                assert(edges.contains(edges[i]));
                assert(e.contains((edges[i].0, b)));
            }
            if exists|a: u64| r.contains(a) && #[trigger] e.contains((a, b)) {
                let a = choose|a: u64| r.contains(a) && #[trigger] e.contains((a, b));
                assert(edges.contains((a, b)));
                let i = choose|i: int| 0 <= i < edges.len() && edges[i] == (a, b);
                assert(edges[i].1 == b);
            }
        }
        assert(step(edges, r) =~= step_in(e, r));
    }
}

/// One more round of following wait-for edges from the set `s`.
pub open spec fn step(edges: Seq<(u64, u64)>, s: Set<u64>) -> Set<u64> {
    s.union(
        Set::new(
            |b: u64| exists|i: int| 0 <= i < edges.len() && #[trigger] edges[i].1 == b && s.contains(edges[i].0),
        ),
    )
}

/// The transactions reached from `s` by at most `n` wait-for edges.
pub open spec fn reach(edges: Seq<(u64, u64)>, s: Set<u64>, n: nat) -> Set<u64>
    decreases n,
{
    if n == 0 {
        s
    } else {
        step(edges, reach(edges, s, (n - 1) as nat))
    }
}

pub fn holds_id(v: &Vec<u64>, x: u64) -> (r: bool)
    ensures
        r == v@.contains(x),
{
    let mut i: usize = 0;
    while i < v.len()
        invariant
            i <= v@.len(),
            forall|j: int| 0 <= j < i ==> v@[j] != x,
        decreases v@.len() - i,
    {
        if v[i] == x {
            return true;
        }
        i = i + 1;
    }
    false
}

/// One round of `step`, on a set held as a vector.
fn step_once(edges: &Vec<(u64, u64)>, cur: &Vec<u64>) -> (r: Vec<u64>)
    ensures
        r@.to_set() == step(edges@, cur@.to_set()),
{
    let mut next: Vec<u64> = cur.clone();
    let mut j: usize = 0;
    while j < edges.len()
        invariant
            j <= edges@.len(),
            forall|b: u64|
                next@.contains(b) <==> cur@.contains(b) || exists|i: int|
                    0 <= i < j && #[trigger] edges@[i].1 == b && cur@.contains(edges@[i].0),
        decreases edges@.len() - j,
    {
        let (a, b) = edges[j];
        let ghost before = next@;
        let fresh = !(holds_id(&next, b));
        let src = holds_id(cur, a);
        if src && fresh {
            next.push(b);
        }
        proof {
            assert forall|c: u64| next@.contains(c) <==> before.contains(c) || (src && c == b) by {
                if next@.contains(c) && !before.contains(c) {
                    let k = choose|k: int| 0 <= k < next@.len() && next@[k] == c;
                    if k < before.len() {
                        assert(before[k] == c);
                    }
                }
                if before.contains(c) {
                    let k = choose|k: int| 0 <= k < before.len() && before[k] == c;
                    assert(next@[k] == c);
                }
                if src && c == b && !before.contains(c) {
                    assert(next@[next@.len() - 1] == c);
                }
            }
            assert forall|c: u64|
                next@.contains(c) <==> cur@.contains(c) || exists|i: int|
                    0 <= i < j + 1 && #[trigger] edges@[i].1 == c && cur@.contains(edges@[i].0) by {
                if src && c == b {
                    assert(edges@[j as int].1 == c);
                }
                if exists|i: int| 0 <= i < j + 1 && #[trigger] edges@[i].1 == c && cur@.contains(edges@[i].0) {
                    let i = choose|i: int| 0 <= i < j + 1 && #[trigger] edges@[i].1 == c && cur@.contains(edges@[i].0);
                    if i < j {
                        assert(before.contains(c));
                    }
                }
            }
        }
        j = j + 1;
    }
    assert(next@.to_set() =~= step(edges@, cur@.to_set()));
    next
}

impl LockTable {
    pub fn new() -> (r: LockTable)
        ensures
            r.locks@.len() == 0,
            r.waits@.len() == 0,
    {
        LockTable { locks: Vec::new(), waits: Vec::new() }
    }

    /// Whether a lock of another scope on `index` excludes one of this mode.
    pub fn conflicting(&self, txn: Option<u64>, index: u64, exclusive: bool) -> (r: bool)
        ensures
            r == exists|i: int| 0 <= i < self.locks@.len() && conflicts(#[trigger] self.locks@[i], txn, index, exclusive),
    {
        let mut i: usize = 0;
        while i < self.locks.len()
            invariant
                i <= self.locks@.len(),
                forall|j: int| 0 <= j < i ==> !conflicts(#[trigger] self.locks@[j], txn, index, exclusive),
            decreases self.locks@.len() - i,
        {
            let l = &self.locks[i];
            let other = match txn { Some(t) => t != l.txn, None => true };
            if l.index == index && other && (exclusive || l.exclusive) {
                return true;
            }
            i = i + 1;
        }
        false
    }

    /// Whether `txn` holds a lock on `index` at least as strong as the mode asked.
    pub fn held(&self, txn: u64, index: u64, exclusive: bool) -> (r: bool)
        ensures
            r == exists|i: int| 0 <= i < self.locks@.len() && covers(#[trigger] self.locks@[i], txn, index, exclusive),
    {
        let mut i: usize = 0;
        while i < self.locks.len()
            invariant
                i <= self.locks@.len(),
                forall|j: int| 0 <= j < i ==> !covers(#[trigger] self.locks@[j], txn, index, exclusive),
            decreases self.locks@.len() - i,
        {
            let l = &self.locks[i];
            if l.txn == txn && l.index == index && (l.exclusive || !exclusive) {
                return true;
            }
            i = i + 1;
        }
        false
    }

    /// The transactions holding locks on `index` that exclude one of this mode for `txn`.
    fn holders(&self, txn: u64, index: u64, exclusive: bool) -> (r: Vec<u64>)
        ensures
            r@.len() == n_conflicts(self.locks@, txn, index, exclusive),
            forall|t: u64| r@.contains(t) <==> exists|i: int| 0 <= i < self.locks@.len()
                && conflicts(#[trigger] self.locks@[i], Some(txn), index, exclusive) && self.locks@[i].txn == t,
    {
        let mut r: Vec<u64> = Vec::new();
        let mut i: usize = 0;
        assert(self.locks@.subrange(0, 0).len() == 0);
        while i < self.locks.len()
            invariant
                i <= self.locks@.len(),
                r@.len() == n_conflicts(self.locks@.subrange(0, i as int), txn, index, exclusive),
                forall|t: u64| r@.contains(t) <==> exists|j: int| 0 <= j < i
                    && conflicts(#[trigger] self.locks@[j], Some(txn), index, exclusive) && self.locks@[j].txn == t,
            decreases self.locks@.len() - i,
        {
            let l = &self.locks[i];
            let ghost li = self.locks@[i as int];
            let ghost before = r@;
            let hit = l.index == index && txn != l.txn && (exclusive || l.exclusive);
            if hit {
                r.push(l.txn);
            }
            assert(self.locks@.subrange(0, i + 1).drop_last() =~= self.locks@.subrange(0, i as int));
            proof {
                assert forall|t: u64| r@.contains(t) <==> before.contains(t) || (hit && t == li.txn) by {
                    if r@.contains(t) && !before.contains(t) {
                        let k = choose|k: int| 0 <= k < r@.len() && r@[k] == t;
                        if k < before.len() {
                            assert(before[k] == t);
                        }
                    }
                    if before.contains(t) {
                        let k = choose|k: int| 0 <= k < before.len() && before[k] == t;
                        assert(r@[k] == t);
                    }
                    if hit && t == li.txn && !before.contains(t) {
                        assert(r@[r@.len() - 1] == t);
                    }
                }
                assert forall|t: u64| r@.contains(t) <==> exists|j: int| 0 <= j < i + 1
                    && conflicts(#[trigger] self.locks@[j], Some(txn), index, exclusive) && self.locks@[j].txn == t by {
                    if exists|j: int| 0 <= j < i + 1
                        && conflicts(#[trigger] self.locks@[j], Some(txn), index, exclusive) && self.locks@[j].txn == t {
                        let j = choose|j: int| 0 <= j < i + 1
                            && conflicts(#[trigger] self.locks@[j], Some(txn), index, exclusive) && self.locks@[j].txn == t;
                        if j < i {
                            assert(before.contains(t));
                        }
                    }
                    if hit && t == li.txn {
                        assert(conflicts(self.locks@[i as int], Some(txn), index, exclusive));
                    }
                    if before.contains(t) {
                        let j = choose|j: int| 0 <= j < i
                            && conflicts(#[trigger] self.locks@[j], Some(txn), index, exclusive) && self.locks@[j].txn == t;
                        assert(j < i + 1);
                    }
                }
            }
            i = i + 1;
        }
        assert(self.locks@.subrange(0, i as int) =~= self.locks@);
        r
    }

    /// Whether `target` is reached from `start` by following wait-for edges.
    fn reaches(&self, start: Vec<u64>, target: u64, steps: usize) -> (r: bool)
        ensures
            r == reach(self.waits@, start@.to_set(), steps as nat).contains(target),
    {
        let mut cur = start;
        let ghost s0 = cur@.to_set();
        let mut n: usize = 0;
        while n < steps
            invariant
                n <= steps,
                cur@.to_set() == reach(self.waits@, s0, n as nat),
            decreases steps - n,
        {
            cur = step_once(&self.waits, &cur);
            n = n + 1;
        }
        holds_id(&cur, target)
    }

    /// Drops the wait-for edges out of `txn`.
    pub fn clear_waits(&mut self, txn: u64)
        ensures
            final(self).locks == old(self).locks,
            forall|e: (u64, u64)| final(self).waits@.contains(e) <==> old(self).waits@.contains(e) && e.0 != txn,
    {
        let mut kept: Vec<(u64, u64)> = Vec::new();
        let mut i: usize = 0;
        while i < self.waits.len()
            invariant
                i <= self.waits@.len(),
                forall|e: (u64, u64)| kept@.contains(e) <==> exists|j: int| 0 <= j < i && #[trigger] self.waits@[j] == e && e.0 != txn,
            decreases self.waits@.len() - i,
        {
            let e = self.waits[i];
            let ghost before = kept@;
            if e.0 != txn {
                kept.push(e);
            }
            proof {
                assert forall|f: (u64, u64)| kept@.contains(f) <==> exists|j: int| 0 <= j < i + 1 && #[trigger] self.waits@[j] == f && f.0 != txn by {
                    if f == e && e.0 != txn {
                        assert(kept@[kept@.len() - 1] == f);
                    }
                    if kept@.contains(f) && !before.contains(f) {
                        let k = choose|k: int| 0 <= k < kept@.len() && kept@[k] == f;
                        if k < before.len() {
                            assert(before[k] == f);
                        }
                        assert(self.waits@[i as int] == f);
                    }
                    if before.contains(f) {
                        let k = choose|k: int| 0 <= k < before.len() && before[k] == f;
                        assert(kept@[k] == f);
                    }
                }
            }
            i = i + 1;
        }
        self.waits = kept;
    }

    /// Asks for a lock for `txn` on `index`.
    ///
    /// Granted at once when `txn` holds one as strong, or when no other transaction
    /// holds a conflicting one. Otherwise `txn` waits for the holders; when that wait
    /// closes a cycle in the wait-for graph, `txn` is the one that must give way.
    pub fn acquire(&mut self, txn: u64, index: u64, exclusive: bool) -> (r: Grant)
        ensures
            r == Grant::Granted <==> (has_lock(old(self).locks@, txn, index, exclusive) || !blocked(
                old(self).locks@,
                Some(txn),
                index,
                exclusive,
            )),
            has_lock(old(self).locks@, txn, index, exclusive) ==> *final(self) == *old(self),
            r == Grant::Granted && !has_lock(old(self).locks@, txn, index, exclusive) ==> {
                &&& final(self).locks@ == old(self).locks@.push(Lock { txn, index, exclusive })
                &&& forall|e: (u64, u64)| #[trigger] final(self).waits@.contains(e) <==> old(self).waits@.contains(e) && e.0 != txn
            },
            r != Grant::Granted ==> {
                &&& final(self).locks@ == old(self).locks@
                &&& forall|e: (u64, u64)| #[trigger] final(self).waits@.contains(e) <==> old(self).waits@.contains(e)
                    || (e.0 == txn && blockers(old(self).locks@, txn, index, exclusive).contains(e.1))
                &&& (r == Grant::Deadlock <==> closes_cycle(old(self), txn, index, exclusive))
            },
    {
        if self.held(txn, index, exclusive) {
            return Grant::Granted;
        }
        if !self.conflicting(Some(txn), index, exclusive) {
            self.clear_waits(txn);
            self.locks.push(Lock { txn, index, exclusive });
            return Grant::Granted;
        }
        let hs = self.holders(txn, index, exclusive);
        assert(hs@.to_set() =~= blockers(self.locks@, txn, index, exclusive));
        let ghost w0 = self.waits@;
        let ghost l0 = self.locks@;
        let mut i: usize = 0;
        while i < hs.len()
            invariant
                i <= hs@.len(),
                self.locks@ == l0,
                forall|t: u64| hs@.contains(t) <==> blockers(l0, txn, index, exclusive).contains(t),
                self.waits@.len() == w0.len() + i,
                forall|e: (u64, u64)| #[trigger] self.waits@.contains(e) <==> w0.contains(e)
                    || (e.0 == txn && exists|j: int| 0 <= j < i && hs@[j] == e.1),
            decreases hs@.len() - i,
        {
            let ghost before = self.waits@;
            self.waits.push((txn, hs[i]));
            proof {
                assert forall|e: (u64, u64)| #[trigger] self.waits@.contains(e) <==> w0.contains(e)
                    || (e.0 == txn && exists|j: int| 0 <= j < i + 1 && hs@[j] == e.1) by {
                    if self.waits@.contains(e) && !before.contains(e) {
                        let k = choose|k: int| 0 <= k < self.waits@.len() && self.waits@[k] == e;
                        if k < before.len() {
                            assert(before[k] == e);
                        }
                        assert(hs@[i as int] == e.1);
                    }
                    if before.contains(e) {
                        let k = choose|k: int| 0 <= k < before.len() && before[k] == e;
                        assert(self.waits@[k] == e);
                    }
                    if e.0 == txn && exists|j: int| 0 <= j < i + 1 && hs@[j] == e.1 {
                        let j = choose|j: int| 0 <= j < i + 1 && hs@[j] == e.1;
                        if j == i {
                            assert(self.waits@[self.waits@.len() - 1] == e);
                        } else {
                            assert(before.contains(e));
                        }
                    }
                }
            }
            i = i + 1;
        }
        proof {
            assert forall|e: (u64, u64)| #[trigger] self.waits@.contains(e) <==> w0.contains(e)
                || (e.0 == txn && blockers(self.locks@, txn, index, exclusive).contains(e.1)) by {
                if e.0 == txn && blockers(self.locks@, txn, index, exclusive).contains(e.1) {
                    assert(hs@.contains(e.1));
                    let j = choose|j: int| 0 <= j < hs@.len() && hs@[j] == e.1;
                }
                if e.0 == txn && exists|j: int| 0 <= j < hs@.len() && hs@[j] == e.1 {
                    let j = choose|j: int| 0 <= j < hs@.len() && hs@[j] == e.1;
                    assert(hs@.contains(e.1));
                }
            }
        }
        let steps = self.waits.len();
        proof {
            lemma_reach_set(self.waits@, wait_edges(l0, w0, txn, index, exclusive), hs@.to_set(), steps as nat);
            assert forall|x: (u64, u64)| #[trigger] self.waits@.contains(x) <==> wait_edges(l0, w0, txn, index, exclusive).contains(x) by {}
            assert(steps == w0.len() + n_conflicts(l0, txn, index, exclusive));
        }
        if self.reaches(hs, txn, steps) {
            Grant::Deadlock
        } else {
            Grant::Wait
        }
    }

    /// Drops every lock of `txn` and every wait-for edge into or out of it.
    pub fn release_all(&mut self, txn: u64)
        ensures
            forall|l: Lock| #[trigger] final(self).locks@.contains(l) <==> old(self).locks@.contains(l) && l.txn != txn,
            forall|e: (u64, u64)| #[trigger] final(self).waits@.contains(e) <==> old(self).waits@.contains(e) && e.0 != txn && e.1 != txn,
    {
        let mut kept: Vec<Lock> = Vec::new();
        let mut i: usize = 0;
        while i < self.locks.len()
            invariant
                i <= self.locks@.len(),
                forall|l: Lock| #[trigger] kept@.contains(l) <==> exists|j: int| 0 <= j < i && self.locks@[j] == l && l.txn != txn,
            decreases self.locks@.len() - i,
        {
            let ghost before = kept@;
            let ghost li = self.locks@[i as int];
            let l = &self.locks[i];
            if l.txn != txn {
                kept.push(Lock { txn: l.txn, index: l.index, exclusive: l.exclusive });
            }
            proof {
                assert forall|m: Lock| #[trigger] kept@.contains(m) <==> exists|j: int| 0 <= j < i + 1 && self.locks@[j] == m && m.txn != txn by {
                    if kept@.contains(m) && !before.contains(m) {
                        let k = choose|k: int| 0 <= k < kept@.len() && kept@[k] == m;
                        if k < before.len() {
                            assert(before[k] == m);
                        }
                        assert(self.locks@[i as int] == m);
                    }
                    if before.contains(m) {
                        let k = choose|k: int| 0 <= k < before.len() && before[k] == m;
                        assert(kept@[k] == m);
                    }
                    if exists|j: int| 0 <= j < i + 1 && self.locks@[j] == m && m.txn != txn {
                        let j = choose|j: int| 0 <= j < i + 1 && self.locks@[j] == m && m.txn != txn;
                        if j == i {
                            assert(kept@[kept@.len() - 1] == m);
                        } else {
                            assert(before.contains(m));
                        }
                    }
                }
            }
            i = i + 1;
        }
        self.locks = kept;
        let mut ws: Vec<(u64, u64)> = Vec::new();
        let mut i: usize = 0;
        while i < self.waits.len()
            invariant
                i <= self.waits@.len(),
                forall|e: (u64, u64)| #[trigger] ws@.contains(e) <==> exists|j: int| 0 <= j < i && self.waits@[j] == e && e.0 != txn && e.1 != txn,
            decreases self.waits@.len() - i,
        {
            let ghost before = ws@;
            let e = self.waits[i];
            if e.0 != txn && e.1 != txn {
                ws.push(e);
            }
            proof {
                assert forall|f: (u64, u64)| #[trigger] ws@.contains(f) <==> exists|j: int| 0 <= j < i + 1 && self.waits@[j] == f && f.0 != txn && f.1 != txn by {
                    if ws@.contains(f) && !before.contains(f) {
                        let k = choose|k: int| 0 <= k < ws@.len() && ws@[k] == f;
                        if k < before.len() {
                            assert(before[k] == f);
                        }
                        assert(self.waits@[i as int] == f);
                    }
                    if before.contains(f) {
                        let k = choose|k: int| 0 <= k < before.len() && before[k] == f;
                        assert(ws@[k] == f);
                    }
                    if exists|j: int| 0 <= j < i + 1 && self.waits@[j] == f && f.0 != txn && f.1 != txn {
                        let j = choose|j: int| 0 <= j < i + 1 && self.waits@[j] == f && f.0 != txn && f.1 != txn;
                        if j == i {
                            assert(ws@[ws@.len() - 1] == f);
                        } else {
                            assert(before.contains(f));
                        }
                    }
                }
            }
            i = i + 1;
        }
        self.waits = ws;
        proof {
            assert forall|l: Lock| #[trigger] self.locks@.contains(l) <==> old(self).locks@.contains(l) && l.txn != txn by {
                if old(self).locks@.contains(l) && l.txn != txn {
                    let j = choose|j: int| 0 <= j < old(self).locks@.len() && old(self).locks@[j] == l;
                }
            }
            assert forall|e: (u64, u64)| #[trigger] self.waits@.contains(e) <==> old(self).waits@.contains(e) && e.0 != txn && e.1 != txn by {
                if old(self).waits@.contains(e) && e.0 != txn && e.1 != txn {
                    let j = choose|j: int| 0 <= j < old(self).waits@.len() && old(self).waits@[j] == e;
                }
            }
        }
    }
}

} // verus!
