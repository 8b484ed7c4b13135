use vstd::prelude::*;

use crate::key::{
    copy_key, key_cmp, key_lt, lemma_key_irrefl, lemma_key_trans, lemma_lex_irrefl,
    lemma_lex_trans, lemma_rec_irrefl, lemma_rec_trans, lex_lt, rec_lt, str_cmp, utf8, Key, KeyV,
    RecV,
};
use crate::ErrCode;

verus! {

/// The records of one index, kept in ascending (key, payload) order.
pub struct Store {
    recs: Vec<(Key, String)>,
}

pub open spec fn rec_view(r: (Key, String)) -> RecV {
    (r.0@, utf8(r.1@))
}

/// Every record is smaller than every record after it: sorted, and no pair twice.
pub open spec fn sorted(s: Seq<RecV>) -> bool {
    forall|i: int, j: int| 0 <= i < j < s.len() ==> #[trigger] rec_lt(s[i], s[j])
}

pub open spec fn pos_view(pos: Option<(&Key, &String)>) -> Option<RecV> {
    match pos {
        None => None,
        Some((k, p)) => Some((k@, utf8(p@))),
    }
}

pub open spec fn has_key(s: Seq<RecV>, k: KeyV) -> bool {
    exists|i: int| 0 <= i < s.len() && (#[trigger] s[i]).0 == k
}

/// Where a scan stands: before everything, or at a (key, payload) position.
pub open spec fn after(pos: Option<RecV>, r: RecV) -> bool {
    match pos {
        None => true,
        Some(p) => rec_lt(p, r),
    }
}

/// The least record of `s` strictly after `pos`, if there is one.
pub open spec fn is_next(s: Seq<RecV>, pos: Option<RecV>, r: RecV) -> bool {
    &&& s.contains(r)
    &&& after(pos, r)
    &&& forall|y: RecV| #[trigger] s.contains(y) && after(pos, y) ==> !rec_lt(y, r)
}

pub open spec fn has_next(s: Seq<RecV>, pos: Option<RecV>) -> bool {
    exists|y: RecV| #[trigger] s.contains(y) && after(pos, y)
}

pub proof fn lemma_lex_asym(a: Seq<u8>, b: Seq<u8>)
    requires
        lex_lt(a, b),
    ensures
        !lex_lt(b, a),
{
    if lex_lt(b, a) {
        lemma_lex_trans(a, b, a);
        lemma_lex_irrefl(a);
    }
}

pub proof fn lemma_rec_asym(a: RecV, b: RecV)
    requires
        rec_lt(a, b),
    ensures
        !rec_lt(b, a),
        a != b,
{
    lemma_rec_irrefl(a);
    if rec_lt(b, a) {
        lemma_rec_trans(a, b, a);
    }
}

proof fn lemma_key_asym(a: KeyV, b: KeyV)
    requires
        key_lt(a, b),
    ensures
        !key_lt(b, a),
        a != b,
{
    lemma_key_irrefl(a);
    if key_lt(b, a) {
        lemma_key_trans(a, b, a);
    }
}

/// A record with a key greater than `k` comes after all records of key `k`.
proof fn lemma_sorted_key_block(s: Seq<RecV>, i: int, k: KeyV)
    requires
        sorted(s),
        0 <= i < s.len(),
        key_lt(k, s[i].0),
    ensures
        forall|j: int| i <= j < s.len() ==> key_lt(k, #[trigger] s[j].0),
{
    assert forall|j: int| i <= j < s.len() implies key_lt(k, #[trigger] s[j].0) by {
        if j > i {
            assert(rec_lt(s[i], s[j]));
            if key_lt(s[i].0, s[j].0) {
                lemma_key_trans(k, s[i].0, s[j].0);
            }
        }
    }
}

/// Three-way comparison of two records.
fn rec_cmp(ak: &Key, ap: &String, bk: &Key, bp: &String) -> (r: i8)
    ensures
        r < 0 <==> rec_lt((ak@, utf8(ap@)), (bk@, utf8(bp@))),
        r > 0 <==> rec_lt((bk@, utf8(bp@)), (ak@, utf8(ap@))),
        r == 0 <==> (ak@, utf8(ap@)) == (bk@, utf8(bp@)),
{
    proof {
        lemma_key_irrefl(ak@);
        lemma_lex_irrefl(utf8(ap@));
    }
    let c = key_cmp(ak, bk);
    if c != 0 {
        proof {
            if c < 0 { lemma_key_asym(ak@, bk@); } else { lemma_key_asym(bk@, ak@); }
        }
        c
    } else {
        let d = str_cmp(ap, bp);
        proof {
            if d < 0 { lemma_lex_asym(utf8(ap@), utf8(bp@)); }
            if d > 0 { lemma_lex_asym(utf8(bp@), utf8(ap@)); }
        }
        d
    }
}

impl View for Store {
    type V = Seq<RecV>;

    closed spec fn view(&self) -> Seq<RecV> {
        self.recs@.map_values(|r: (Key, String)| rec_view(r))
    }
}

impl Store {
    pub open spec fn wf(&self) -> bool {
        sorted(self@)
    }

    /// An empty store.
    pub fn new() -> (r: Store)
        ensures
            r.wf(),
            r@ == Seq::<RecV>::empty(),
    {
        let r = Store { recs: Vec::new() };
        assert(r@ =~= Seq::<RecV>::empty());
        r
    }

    /// The first position whose record is not below (k, p), and whether it holds (k, p).
    fn find_pos(&self, k: &Key, p: &String) -> (r: (usize, bool))
        requires
            self.wf(),
        ensures
            r.0 <= self@.len(),
            forall|j: int| 0 <= j < r.0 ==> rec_lt(#[trigger] self@[j], (k@, utf8(p@))),
            r.0 < self@.len() ==> rec_lt((k@, utf8(p@)), self@[r.0 as int]) || self@[r.0 as int]
                == (k@, utf8(p@)),
            r.1 <==> self@.contains((k@, utf8(p@))),
            r.1 ==> r.0 < self@.len() && self@[r.0 as int] == (k@, utf8(p@)),
    {
        let x: Ghost<RecV> = Ghost((k@, utf8(p@)));
        let mut i: usize = 0;
        while i < self.recs.len()
            invariant
                self.wf(),
                x@ == (k@, utf8(p@)),
                i <= self@.len(),
                self@.len() == self.recs@.len(),
                forall|j: int| 0 <= j < i ==> rec_lt(#[trigger] self@[j], x@),
            decreases self.recs@.len() - i,
        {
            let c = rec_cmp(&self.recs[i].0, &self.recs[i].1, k, p);
            assert(self@[i as int] == rec_view(self.recs@[i as int]));
            if c >= 0 {
                proof {
                    if c == 0 {
                        assert(self@.contains(x@));
                    } else {
                        assert forall|j: int| 0 <= j < self@.len() implies self@[j] != x@ by {
                            if j < i {
                                lemma_rec_asym(self@[j], x@);
                            } else if j > i {
                                assert(rec_lt(self@[i as int], self@[j]));
                                lemma_rec_trans(x@, self@[i as int], self@[j]);
                                lemma_rec_asym(x@, self@[j]);
                            } else {
                                lemma_rec_asym(x@, self@[j]);
                            }
                        }
                    }
                }
                return (i, c == 0);
            }
            i = i + 1;
        }
        proof {
            assert forall|j: int| 0 <= j < self@.len() implies self@[j] != x@ by {
                lemma_rec_asym(self@[j], x@);
            }
        }
        (i, false)
    }

    /// Adds the record (k, p); fails with `EntryExists` when it is already there.
    pub fn insert(&mut self, k: Key, p: String) -> (r: Result<(), ErrCode>)
        requires
            old(self).wf(),
        ensures
            final(self).wf(),
            r is Err <==> old(self)@.contains((k@, utf8(p@))),
            r is Err ==> r == Err::<(), ErrCode>(ErrCode::EntryExists) && final(self)@ == old(self)@,
            r is Ok ==> forall|y: RecV|
                #[trigger] final(self)@.contains(y) <==> old(self)@.contains(y) || y == (k@, utf8(p@)),
    {
        let (i, found) = self.find_pos(&k, &p);
        if found {
            return Err(ErrCode::EntryExists);
        }
        let ghost x = (k@, utf8(p@));
        let ghost s0 = self@;
        self.recs.insert(i, (k, p));
        assert(self@ =~= s0.insert(i as int, x));
        proof {
            assert forall|a: int, b: int| 0 <= a < b < self@.len() implies #[trigger] rec_lt(
                self@[a],
                self@[b],
            ) by {
                if b < i {
                } else if a < i && b == i {
                } else if a < i && b > i {
                    assert(rec_lt(s0[a], s0[b - 1]));
                } else if a == i {
                    if b - 1 > i {
                        assert(rec_lt(s0[i as int], s0[b - 1]));
                        lemma_rec_trans(x, s0[i as int], s0[b - 1]);
                    }
                } else {
                    assert(rec_lt(s0[a - 1], s0[b - 1]));
                }
            }
            assert forall|y: RecV| #[trigger] self@.contains(y) <==> s0.contains(y) || y == x by {
                if self@.contains(y) {
                    let j = choose|j: int| 0 <= j < self@.len() && self@[j] == y;
                    if j < i {
                        assert(s0[j] == y);
                    } else if j > i {
                        assert(s0[j - 1] == y);
                    }
                }
                if s0.contains(y) {
                    let j = choose|j: int| 0 <= j < s0.len() && s0[j] == y;
                    if j < i {
                        assert(self@[j] == y);
                    } else {
                        assert(self@[j + 1] == y);
                    }
                }
                if y == x {
                    assert(self@[i as int] == y);
                }
            }
        }
        Ok(())
    }

    /// Removes the record (k, p); fails with `EntryDne` when it is not there.
    pub fn delete_exact(&mut self, k: &Key, p: &String) -> (r: Result<(), ErrCode>)
        requires
            old(self).wf(),
        ensures
            final(self).wf(),
            r is Err <==> !old(self)@.contains((k@, utf8(p@))),
            r is Err ==> r == Err::<(), ErrCode>(ErrCode::EntryDne) && final(self)@ == old(self)@,
            r is Ok ==> forall|y: RecV|
                #[trigger] final(self)@.contains(y) <==> old(self)@.contains(y) && y != (k@, utf8(p@)),
    {
        let (i, found) = self.find_pos(k, p);
        if !found {
            return Err(ErrCode::EntryDne);
        }
        let ghost x = (k@, utf8(p@));
        let ghost s0 = self@;
        self.recs.remove(i);
        assert(self@ =~= s0.remove(i as int));
        proof {
            assert forall|a: int, b: int| 0 <= a < b < self@.len() implies #[trigger] rec_lt(
                self@[a],
                self@[b],
            ) by {
                if b < i {
                } else if a < i {
                    assert(rec_lt(s0[a], s0[b + 1]));
                } else {
                    assert(rec_lt(s0[a + 1], s0[b + 1]));
                }
            }
            assert forall|y: RecV| #[trigger] self@.contains(y) <==> s0.contains(y) && y != x by {
                if self@.contains(y) {
                    let j = choose|j: int| 0 <= j < self@.len() && self@[j] == y;
                    if j < i {
                        assert(s0[j] == y);
                        assert(rec_lt(s0[j], s0[i as int]));
                        lemma_rec_asym(s0[j], s0[i as int]);
                    } else {
                        assert(s0[j + 1] == y);
                        assert(rec_lt(s0[i as int], s0[j + 1]));
                        lemma_rec_asym(s0[i as int], s0[j + 1]);
                    }
                }
                if s0.contains(y) && y != x {
                    let j = choose|j: int| 0 <= j < s0.len() && s0[j] == y;
                    if j < i {
                        assert(self@[j] == y);
                    } else {
                        assert(self@[j - 1] == y);
                    }
                }
            }
        }
        Ok(())
    }

    /// Removes every record of key k; fails with `KeyNotFound` when there is none.
    pub fn delete_all(&mut self, k: &Key) -> (r: Result<(), ErrCode>)
        requires
            old(self).wf(),
        ensures
            final(self).wf(),
            r is Err <==> !has_key(old(self)@, k@),
            r is Err ==> r == Err::<(), ErrCode>(ErrCode::KeyNotFound) && final(self)@ == old(self)@,
            r is Ok ==> forall|y: RecV|
                #[trigger] final(self)@.contains(y) <==> old(self)@.contains(y) && y.0 != k@,
    {
        let empty = String::new();
        let (i, _) = self.find_pos(k, &empty);
        let ghost s0 = self@;
        let ghost lo = (k@, Seq::<u8>::empty());
        let len0 = self.recs.len();
        assert(s0.len() == len0);
        assert(utf8(empty@) =~= Seq::<u8>::empty());
        proof {
            assert forall|j: int| 0 <= j < i implies key_lt(#[trigger] s0[j].0, k@) by {
                assert(rec_lt(s0[j], lo));
            }
        }
        let mut n: usize = 0;
        while i < self.recs.len() && key_cmp(&self.recs[i].0, k) == 0
            invariant
                self.recs@.len() + n == s0.len(),
                i + n <= s0.len(),
                i <= self@.len(),
                self@.len() == self.recs@.len(),
                sorted(s0),
                s0.len() <= usize::MAX,
                self@ =~= s0.subrange(0, i as int) + s0.subrange(i + n, s0.len() as int),
                forall|j: int| i <= j < i + n ==> (#[trigger] s0[j]).0 == k@,
                forall|j: int| 0 <= j < i ==> key_lt(#[trigger] s0[j].0, k@),
                i + n < s0.len() ==> rec_lt(lo, s0[i + n]) || s0[i + n] == lo,
            decreases self.recs@.len() - i,
        {
            assert(self@[i as int] == rec_view(self.recs@[i as int]));
            assert(self@[i as int] == s0[i + n]);
            let ghost before = self@;
            self.recs.remove(i);
            assert(self@ =~= before.remove(i as int));
            proof {
                if i + n + 1 < s0.len() {
                    assert(rec_lt(s0[i + n], s0[i + n + 1]));
                    if s0[i + n] != lo {
                        lemma_rec_trans(lo, s0[i + n], s0[i + n + 1]);
                    }
                }
            }
            n = n + 1;
            assert(self@ =~= s0.subrange(0, i as int) + s0.subrange(i + n, s0.len() as int));
        }
        let ghost m = i + n;
        proof {
            if m < s0.len() {
                assert(self@[i as int] == rec_view(self.recs@[i as int]));
                assert(self@[i as int] == s0[m]);
                assert(s0[m].0 != k@);
                if s0[m] != lo {
                    assert(rec_lt(lo, s0[m]));
                }
                assert(key_lt(k@, s0[m].0));
                lemma_sorted_key_block(s0, m, k@);
            }
            assert forall|j: int| 0 <= j < s0.len() implies (#[trigger] s0[j]).0 == k@ <==> i <= j < m by {
                if j < i {
                    lemma_key_asym(s0[j].0, k@);
                }
                if j >= m {
                    lemma_key_asym(k@, s0[j].0);
                }
            }
        }
        if n == 0 {
            assert(self@ =~= s0);
            return Err(ErrCode::KeyNotFound);
        }
        proof {
            assert(s0[i as int].0 == k@);
            assert forall|a: int, b: int| 0 <= a < b < self@.len() implies #[trigger] rec_lt(
                self@[a],
                self@[b],
            ) by {
                if b < i {
                } else if a < i {
                    assert(rec_lt(s0[a], s0[b + n]));
                } else {
                    assert(rec_lt(s0[a + n], s0[b + n]));
                }
            }
            assert forall|y: RecV| #[trigger] self@.contains(y) <==> s0.contains(y) && y.0 != k@ by {
                if self@.contains(y) {
                    let j = choose|j: int| 0 <= j < self@.len() && self@[j] == y;
                    if j < i {
                        assert(s0[j] == y);
                    } else {
                        assert(s0[j + n] == y);
                    }
                }
                if s0.contains(y) && y.0 != k@ {
                    let j = choose|j: int| 0 <= j < s0.len() && s0[j] == y;
                    if j < i {
                        assert(self@[j] == y);
                    } else {
                        assert(self@[j - n] == y);
                    }
                }
            }
        }
        Ok(())
    }

    /// The first position at or after which every record lies strictly after `pos`.
    fn next_pos(&self, pos: Option<(&Key, &String)>) -> (r: usize)
        requires
            self.wf(),
        ensures
            r <= self@.len(),
            forall|j: int| 0 <= j < r ==> !after(pos_view(pos), #[trigger] self@[j]),
            forall|j: int| r <= j < self@.len() ==> after(pos_view(pos), #[trigger] self@[j]),
    {
        match pos {
            None => 0,
            Some((k, p)) => {
                let (i, found) = self.find_pos(k, p);
                let ghost x = (k@, utf8(p@));
                let len = self.recs.len();
                assert(self@.len() == len);
                let r = if found { i + 1 } else { i };
                proof {
                    assert forall|j: int| 0 <= j < r implies !after(pos_view(pos), #[trigger] self@[j]) by {
                        if j < i {
                            lemma_rec_asym(self@[j], x);
                        } else {
                            lemma_rec_irrefl(x);
                        }
                    }
                    assert forall|j: int| r <= j < self@.len() implies after(pos_view(pos), #[trigger] self@[j]) by {
                        if j > i {
                            assert(rec_lt(self@[i as int], self@[j]));
                            if self@[i as int] != x {
                                lemma_rec_trans(x, self@[i as int], self@[j]);
                            }
                        }
                    }
                }
                r
            }
        }
    }

    /// The least record strictly after `pos` (after nothing: the least record), if any.
    pub fn lookup_next(&self, pos: Option<(&Key, &String)>) -> (r: Option<(Key, String)>)
        requires
            self.wf(),
        ensures
            r is None <==> !has_next(self@, pos_view(pos)),
            r is Some ==> is_next(self@, pos_view(pos), rec_view(r->0)),
    {
        let i = self.next_pos(pos);
        if i < self.recs.len() {
            let k = copy_key(&self.recs[i].0);
            let p = self.recs[i].1.clone();
            let ghost y = rec_view((k, p));
            assert(self@[i as int] == rec_view(self.recs@[i as int]));
            assert(y == self@[i as int]);
            assert(self@.contains(y) && after(pos_view(pos), y));
            proof {
                assert forall|z: RecV| #[trigger] self@.contains(z) && after(pos_view(pos), z) implies !rec_lt(z, y) by {
                    let j = choose|j: int| 0 <= j < self@.len() && self@[j] == z;
                    if j > i {
                        assert(rec_lt(self@[i as int], self@[j]));
                        lemma_rec_asym(self@[i as int], self@[j]);
                    } else if j == i {
                        lemma_rec_irrefl(y);
                    }
                }
            }
            Some((k, p))
        } else {
            proof {
                assert forall|z: RecV| #[trigger] self@.contains(z) implies !after(pos_view(pos), z) by {
                    let j = choose|j: int| 0 <= j < self@.len() && self@[j] == z;
                }
            }
            None
        }
    }

    /// The payload of the least record of key `k`, if there is one.
    pub fn lookup_first(&self, k: &Key) -> (r: Option<String>)
        requires
            self.wf(),
        ensures
            r is None <==> !has_key(self@, k@),
            r is Some ==> self@.contains((k@, utf8(r->0@))),
            r is Some ==> forall|y: RecV| #[trigger] self@.contains(y) && y.0 == k@
                ==> !lex_lt(y.1, utf8(r->0@)),
    {
        let empty = String::new();
        assert(utf8(empty@) =~= Seq::<u8>::empty());
        let ghost lo = (k@, Seq::<u8>::empty());
        let (i, _) = self.find_pos(k, &empty);
        proof {
            assert forall|j: int| 0 <= j < i implies key_lt(#[trigger] self@[j].0, k@) by {
                assert(rec_lt(self@[j], lo));
            }
        }
        if i < self.recs.len() && key_cmp(&self.recs[i].0, k) == 0 {
            let p = self.recs[i].1.clone();
            assert(self@[i as int] == rec_view(self.recs@[i as int]));
            proof {
                assert(self@.contains((k@, utf8(p@))));
                assert forall|y: RecV| #[trigger] self@.contains(y) && y.0 == k@ implies !lex_lt(y.1, utf8(p@)) by {
                    let j = choose|j: int| 0 <= j < self@.len() && self@[j] == y;
                    if j < i {
                        lemma_key_irrefl(k@);
                    } else if j > i {
                        assert(rec_lt(self@[i as int], self@[j]));
                        lemma_key_irrefl(k@);
                        lemma_lex_asym(utf8(p@), y.1);
                    } else {
                        lemma_lex_irrefl(y.1);
                    }
                }
            }
            Some(p)
        } else {
            proof {
                if i < self@.len() {
                    assert(self@[i as int] == rec_view(self.recs@[i as int]));
                    assert(key_lt(k@, self@[i as int].0));
                    lemma_sorted_key_block(self@, i as int, k@);
                }
                assert forall|j: int| 0 <= j < self@.len() implies (#[trigger] self@[j]).0 != k@ by {
                    if j < i {
                        lemma_key_irrefl(k@);
                    } else {
                        lemma_key_irrefl(k@);
                    }
                }
            }
            None
        }
    }

    /// The payloads stored under key `k`.
    pub fn payloads_of(&self, k: &Key) -> (r: Vec<String>)
        ensures
            forall|j: int| 0 <= j < r@.len() ==> self@.contains((k@, utf8(#[trigger] r@[j]@))),
            forall|y: RecV| #[trigger] self@.contains(y) && y.0 == k@ ==> exists|j: int| 0 <= j < r@.len() && utf8(r@[j]@) == y.1,
    {
        let mut r: Vec<String> = Vec::new();
        let mut i: usize = 0;
        while i < self.recs.len()
            invariant
                i <= self.recs@.len(),
                self@.len() == self.recs@.len(),
                forall|j: int| 0 <= j < r@.len() ==> self@.contains((k@, utf8(#[trigger] r@[j]@))),
                forall|m: int| 0 <= m < i && (#[trigger] self@[m]).0 == k@ ==> exists|j: int| 0 <= j < r@.len() && utf8(r@[j]@) == self@[m].1,
            decreases self.recs@.len() - i,
        {
            let ghost before = r@;
            assert(self@[i as int] == rec_view(self.recs@[i as int]));
            if key_cmp(&self.recs[i].0, k) == 0 {
                let p = self.recs[i].1.clone();
                assert(self@.contains((k@, utf8(p@))));
                r.push(p);
                assert(utf8(r@[r@.len() - 1]@) == self@[i as int].1);
            }
            proof {
                assert forall|m: int| 0 <= m < i + 1 && (#[trigger] self@[m]).0 == k@ implies exists|j: int| 0 <= j < r@.len() && utf8(r@[j]@) == self@[m].1 by {
                    if m < i {
                        let j = choose|j: int| 0 <= j < before.len() && utf8(before[j]@) == self@[m].1;
                        assert(r@[j] == before[j]);
                    } else {
                        assert(utf8(r@[r@.len() - 1]@) == self@[i as int].1);
                    }
                }
            }
            i = i + 1;
        }
        proof {
            assert forall|y: RecV| #[trigger] self@.contains(y) && y.0 == k@ implies exists|j: int| 0 <= j < r@.len() && utf8(r@[j]@) == y.1 by {
                let m = choose|m: int| 0 <= m < self@.len() && self@[m] == y;
            }
        }
        r
    }

    /// Whether the record (k, p) is stored.
    pub fn contains_rec(&self, k: &Key, p: &String) -> (r: bool)
        requires
            self.wf(),
        ensures
            r == self@.contains((k@, utf8(p@))),
    {
        self.find_pos(k, p).1
    }
}

} // verus!
