//! Ordering records by their id, as the database's increasing ids order them by age.

use vstd::prelude::*;

use crate::models::{Conversation, Node};

verus! {

/// A record with a numeric id.
pub trait HasId {
    spec fn key(&self) -> u64;

    fn id_key(&self) -> (r: u64)
        ensures
            r == self.key(),
    ;
}

impl HasId for Conversation {
    open spec fn key(&self) -> u64 {
        self.id
    }

    fn id_key(&self) -> (r: u64) {
        self.id
    }
}

impl HasId for Node {
    open spec fn key(&self) -> u64 {
        self.id
    }

    fn id_key(&self) -> (r: u64) {
        self.id
    }
}

/// `x` placed into `s` after every element whose id is not larger than its own.
pub open spec fn insert_by_id<T: HasId>(s: Seq<T>, x: T) -> Seq<T>
    decreases s.len(),
{
    if s.len() == 0 || s.last().key() <= x.key() {
        s.push(x)
    } else {
        insert_by_id(s.drop_last(), x).push(s.last())
    }
}

/// `s` ordered by id; records with equal ids keep their order (a stable sort).
pub open spec fn sorted_by_id<T: HasId>(s: Seq<T>) -> Seq<T>
    decreases s.len(),
{
    if s.len() == 0 {
        s
    } else {
        insert_by_id(sorted_by_id(s.drop_last()), s.last())
    }
}

/// Ids never decrease along `s`.
pub open spec fn ascending<T: HasId>(s: Seq<T>) -> bool {
    forall|i: int, j: int| 0 <= i <= j < s.len() ==> (#[trigger] s[i]).key() <= (#[trigger] s[j]).key()
}

proof fn lemma_insert_at<T: HasId>(s: Seq<T>, x: T, pos: int)
    requires
        0 <= pos <= s.len(),
        pos == 0 || s[pos - 1].key() <= x.key(),
        forall|k: int| pos <= k < s.len() ==> (#[trigger] s[k]).key() > x.key(),
    ensures
        insert_by_id(s, x) == s.insert(pos, x),
    decreases s.len(),
{
    if s.len() == pos {
        assert(s.insert(pos, x) =~= s.push(x));
    } else {
        let t = s.drop_last();
        assert(t.len() >= pos);
        if pos > 0 {
            assert(t[pos - 1] == s[pos - 1]);
        }
        lemma_insert_at(t, x, pos);
        assert(s.insert(pos, x) =~= t.insert(pos, x).push(s.last()));
    }
}

proof fn lemma_insert_keeps<T: HasId>(s: Seq<T>, x: T)
    ensures
        insert_by_id(s, x).to_multiset() == s.to_multiset().insert(x),
        ascending(s) ==> ascending(insert_by_id(s, x)),
        insert_by_id(s, x).len() == s.len() + 1,
    decreases s.len(),
{
    broadcast use vstd::seq_lib::group_to_multiset_ensures;

    if s.len() == 0 || s.last().key() <= x.key() {
        if ascending(s) {
            let r = s.push(x);
            assert forall|i: int, j: int| 0 <= i <= j < r.len() implies (#[trigger] r[i]).key()
                <= (#[trigger] r[j]).key() by {
                if j == s.len() && i < j {
                    assert(s[i].key() <= s.last().key());
                }
            }
        }
    } else {
        let t = s.drop_last();
        lemma_insert_keeps(t, x);
        assert(s == t.push(s.last()));
        assert(s.to_multiset() == t.to_multiset().insert(s.last()));
        assert(insert_by_id(s, x).to_multiset() =~= s.to_multiset().insert(x));
        if ascending(s) {
            assert(ascending(t));
            let u = insert_by_id(t, x);
            let r = u.push(s.last());
            assert forall|k: int| 0 <= k < u.len() implies (#[trigger] u[k]).key() <= s.last().key() by {
                assert(u.to_multiset().count(u[k]) > 0);
                assert(u.to_multiset() =~= t.to_multiset().insert(x));
                if u[k] != x {
                    assert(t.to_multiset().count(u[k]) > 0);
                    assert(t.contains(u[k]));
                    let m = choose|m: int| 0 <= m < t.len() && t[m] == u[k];
                    assert(s[m] == t[m]);
                }
            }
            assert forall|i: int, j: int| 0 <= i <= j < r.len() implies (#[trigger] r[i]).key()
                <= (#[trigger] r[j]).key() by {
                if j == u.len() {
                    if i < j {
                        assert(r[i] == u[i]);
                    }
                } else {
                    assert(r[i] == u[i] && r[j] == u[j]);
                }
            }
        }
    }
}

/// Ordering by id yields the same records, with ids never decreasing.
pub proof fn lemma_sorted_by_id<T: HasId>(s: Seq<T>)
    ensures
        sorted_by_id(s).to_multiset() == s.to_multiset(),
        ascending(sorted_by_id(s)),
        sorted_by_id(s).len() == s.len(),
    decreases s.len(),
{
    broadcast use vstd::seq_lib::group_to_multiset_ensures;

    if s.len() > 0 {
        let t = s.drop_last();
        lemma_sorted_by_id(t);
        lemma_insert_keeps(sorted_by_id(t), s.last());
        assert(s == t.push(s.last()));
    }
}

/// Ordering records that are already in id order leaves them exactly as they
/// are, records with equal ids included: the sort is stable.
pub proof fn lemma_sorted_keeps_ordered<T: HasId>(s: Seq<T>)
    requires
        ascending(s),
    ensures
        sorted_by_id(s) == s,
    decreases s.len(),
{
    if s.len() > 0 {
        let t = s.drop_last();
        assert(ascending(t)) by {
            assert forall|i: int, j: int| 0 <= i <= j < t.len() implies (#[trigger] t[i]).key()
                <= (#[trigger] t[j]).key() by {
                assert(t[i] == s[i] && t[j] == s[j]);
            }
        }
        lemma_sorted_keeps_ordered(t);
        if t.len() > 0 {
            assert(t.last() == s[s.len() - 2]);
            assert(s[s.len() - 2].key() <= s[s.len() - 1].key());
        }
        assert(t.push(s.last()) =~= s);
    }
}

/// `v` ordered by id, stably.
pub fn sort_by_id<T: HasId>(v: Vec<T>) -> (r: Vec<T>)
    ensures
        r@ == sorted_by_id(v@),
{
    let ghost orig = v@;
    let mut rest = v;
    let mut r: Vec<T> = Vec::new();
    let n = rest.len();
    let mut i: usize = 0;
    while i < n
        invariant
            n == orig.len(),
            i <= n,
            rest@ == orig.skip(i as int),
            r@ == sorted_by_id(orig.take(i as int)),
        decreases n - i,
    {
        let x = rest.remove(0);
        assert(orig.take(i + 1).drop_last() =~= orig.take(i as int));
        assert(x == orig[i as int]);
        let ghost before = r@;
        proof {
            lemma_sorted_by_id(orig.take(i as int));
        }
        let xk = x.id_key();
        let mut pos = r.len();
        while pos > 0 && r[pos - 1].id_key() > xk
            invariant
                r@ == before,
                pos <= r.len(),
                xk == x.key(),
                forall|k: int| pos <= k < r.len() ==> (#[trigger] r@[k]).key() > x.key(),
            decreases pos,
        {
            pos = pos - 1;
        }
        proof {
            lemma_insert_at(before, x, pos as int);
        }
        r.insert(pos, x);
        assert(rest@ =~= orig.skip(i + 1));
        i = i + 1;
    }
    assert(orig.take(n as int) =~= orig);
    r
}

} // verus!
