use vstd::prelude::*;

use crate::key::{key_lt, lemma_key_irrefl, lemma_key_trans, lex_lt, rec_lt, KeyV, RecV};
use crate::store::{after, has_key, has_next, is_next, lemma_rec_asym, sorted};

verus! {

/// In a scan, the record after `s[i]` is `s[i + 1]`; after the last record there is none.
pub proof fn lemma_scan_step(s: Seq<RecV>, i: int)
    requires
        sorted(s),
        0 <= i < s.len(),
    ensures
        i + 1 < s.len() ==> is_next(s, Some(s[i]), s[i + 1]),
        i + 1 == s.len() ==> !has_next(s, Some(s[i])),
{
    assert forall|y: RecV| #[trigger] s.contains(y) && after(Some(s[i]), y) implies exists|j: int|
        i < j < s.len() && s[j] == y by {
        let j = choose|j: int| 0 <= j < s.len() && s[j] == y;
        if j < i {
            assert(rec_lt(s[j], s[i]));
            lemma_rec_asym(s[j], s[i]);
        } else if j == i {
            lemma_rec_asym(s[i], y);
        }
    }
    if i + 1 < s.len() {
        assert(rec_lt(s[i], s[i + 1]));
        assert(s.contains(s[i + 1]));
        assert forall|y: RecV| #[trigger] s.contains(y) && after(Some(s[i]), y) implies !rec_lt(y, s[i + 1]) by {
            let j = choose|j: int| i < j < s.len() && s[j] == y;
            if j > i + 1 {
                assert(rec_lt(s[i + 1], s[j]));
                lemma_rec_asym(s[i + 1], s[j]);
            } else {
                lemma_rec_asym(s[i], s[i + 1]);
                crate::key::lemma_rec_irrefl(y);
            }
        }
    }
}

/// The first scan step of a fresh cursor yields the least record of the store.
pub proof fn lemma_fresh_scan_least(s: Seq<RecV>, r: RecV)
    requires
        is_next(s, None, r),
    ensures
        s.contains(r),
        forall|y: RecV| #[trigger] s.contains(y) ==> !rec_lt(y, r),
{
    assert forall|y: RecV| #[trigger] s.contains(y) implies !rec_lt(y, r) by {
        assert(after(None, y));
    }
}

/// A scan is deterministic: from one position on one store, the next record is unique,
/// so two scans of an unchanged store from a fresh cursor see the same sequence.
pub proof fn lemma_next_unique(s: Seq<RecV>, pos: Option<RecV>, r1: RecV, r2: RecV)
    requires
        sorted(s),
        is_next(s, pos, r1),
        is_next(s, pos, r2),
    ensures
        r1 == r2,
{
    let a = choose|a: int| 0 <= a < s.len() && s[a] == r1;
    let b = choose|b: int| 0 <= b < s.len() && s[b] == r2;
    if a < b {
        assert(rec_lt(s[a], s[b]));
    } else if b < a {
        assert(rec_lt(s[b], s[a]));
    }
}

/// The records of one key sit together in a scan, and `get` starts at the first of them:
/// nothing before the least payload of `k` has key `k`, and every record between two
/// records of key `k` has key `k`. So `get(k)` and then `n - 1` scan steps visit the
/// `n` records of `k`, each once.
pub proof fn lemma_key_run(s: Seq<RecV>, k: KeyV, i: int)
    requires
        sorted(s),
        0 <= i < s.len(),
        s[i].0 == k,
        forall|y: RecV| #[trigger] s.contains(y) && y.0 == k ==> !lex_lt(y.1, s[i].1),
    ensures
        forall|j: int| 0 <= j < i ==> (#[trigger] s[j]).0 != k,
        forall|a: int, c: int, b: int|
            0 <= a < c < b < s.len() && (#[trigger] s[a]).0 == k && (#[trigger] s[b]).0 == k ==> (#[trigger] s[c]).0 == k,
{
    assert forall|j: int| 0 <= j < i implies (#[trigger] s[j]).0 != k by {
        assert(rec_lt(s[j], s[i]));
        assert(s.contains(s[j]));
        if s[j].0 == k {
            lemma_key_irrefl(k);
        }
    }
    assert forall|a: int, c: int, b: int|
        0 <= a < c < b < s.len() && (#[trigger] s[a]).0 == k && (#[trigger] s[b]).0 == k implies (#[trigger] s[c]).0 == k by {
        assert(rec_lt(s[a], s[c]));
        assert(rec_lt(s[c], s[b]));
        lemma_key_irrefl(k);
        if s[c].0 != k {
            assert(key_lt(k, s[c].0));
            assert(key_lt(s[c].0, k));
            lemma_key_trans(k, s[c].0, k);
        }
    }
}

/// After every record of a key is removed, the key has no record, so a lookup of it
/// reports it missing.
pub proof fn lemma_removed_key_absent(before: Seq<RecV>, after: Seq<RecV>, k: KeyV)
    requires
        forall|y: RecV| #[trigger] after.contains(y) <==> before.contains(y) && y.0 != k,
    ensures
        !has_key(after, k),
{
    assert forall|j: int| 0 <= j < after.len() implies (#[trigger] after[j]).0 != k by {
        assert(after.contains(after[j]));
    }
}

/// Removing one record keeps every other record of the same key.
pub proof fn lemma_exact_delete_keeps_rest(before: Seq<RecV>, after: Seq<RecV>, x: RecV)
    requires
        forall|y: RecV| #[trigger] after.contains(y) <==> before.contains(y) && y != x,
    ensures
        forall|y: RecV| #[trigger] before.contains(y) && y.0 == x.0 && y.1 != x.1 ==> after.contains(y),
{
}

} // verus!
