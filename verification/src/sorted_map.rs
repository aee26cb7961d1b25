//! An association list keyed by byte strings, kept sorted in strict
//! lexicographic order, mirroring an ordered map: inserting an existing key
//! replaces its value, and iteration runs in ascending key order.

use crate::text::{lemma_lex_connected, lemma_lex_transitive, lex_cmp, lex_lt, Cmp};
use vstd::prelude::*;

verus! {

/// The value under key `k`, if any.
pub open spec fn map_find<T>(s: Seq<(Seq<u8>, T)>, k: Seq<u8>) -> Option<T>
    decreases s.len(),
{
    if s.len() == 0 {
        None
    } else if s[0].0 == k {
        Some(s[0].1)
    } else {
        map_find(s.drop_first(), k)
    }
}

/// Write `v` under key `k`, keeping the entries sorted by key: an existing
/// entry for `k` is replaced in place, a new one is inserted at its position.
pub open spec fn map_put<T>(s: Seq<(Seq<u8>, T)>, k: Seq<u8>, v: T) -> Seq<(Seq<u8>, T)>
    decreases s.len(),
{
    if s.len() == 0 {
        seq![(k, v)]
    } else if lex_lt(k, s[0].0) {
        seq![(k, v)] + s
    } else if k == s[0].0 {
        seq![(k, v)] + s.drop_first()
    } else {
        seq![s[0]] + map_put(s.drop_first(), k, v)
    }
}

/// Keys strictly ascending in lexicographic order (hence unique).
pub open spec fn keys_sorted<T>(s: Seq<(Seq<u8>, T)>) -> bool {
    forall|i: int, j: int| 0 <= i < j < s.len() ==> lex_lt(#[trigger] s[i].0, #[trigger] s[j].0)
}

pub proof fn lemma_map_put_sorted<T>(s: Seq<(Seq<u8>, T)>, k: Seq<u8>, v: T)
    requires
        keys_sorted(s),
    ensures
        keys_sorted(map_put(s, k, v)),
        map_find(map_put(s, k, v), k) == Some(v),
        forall|k2: Seq<u8>| k2 != k ==> map_find(map_put(s, k, v), k2) == map_find(s, k2),
    decreases s.len(),
{
    let r = map_put(s, k, v);
    if s.len() == 0 {
        assert(r.drop_first() =~= Seq::<(Seq<u8>, T)>::empty());
        assert forall|k2: Seq<u8>| k2 != k implies map_find(r, k2) == map_find(s, k2) by {
            assert(map_find(r, k2) == map_find(r.drop_first(), k2));
        }
    } else if lex_lt(k, s[0].0) {
        assert forall|i: int, j: int| 0 <= i < j < r.len() implies lex_lt(r[i].0, r[j].0) by {
            if i == 0 {
                if j > 1 {
                    lemma_lex_transitive(k, s[0].0, s[j - 1].0);
                }
            }
        }
        assert forall|k2: Seq<u8>| k2 != k implies map_find(r, k2) == map_find(s, k2) by {
            assert(r.drop_first() =~= s);
        }
    } else if k == s[0].0 {
        assert forall|i: int, j: int| 0 <= i < j < r.len() implies lex_lt(r[i].0, r[j].0) by {}
        assert forall|k2: Seq<u8>| k2 != k implies map_find(r, k2) == map_find(s, k2) by {
            assert(r.drop_first() =~= s.drop_first());
        }
    } else {
        lemma_lex_connected(k, s[0].0);
        assert(keys_sorted(s.drop_first())) by {
            assert forall|i: int, j: int|
                0 <= i < j < s.drop_first().len() implies lex_lt(
                s.drop_first()[i].0,
                s.drop_first()[j].0,
            ) by {
                assert(s.drop_first()[i] == s[i + 1]);
                assert(s.drop_first()[j] == s[j + 1]);
            }
        }
        lemma_map_put_sorted(s.drop_first(), k, v);
        let rr = map_put(s.drop_first(), k, v);
        assert(r == seq![s[0]] + rr);
        assert(map_find(rr, k) == Some(v));
        // every key in rr is either k or a key of s.drop_first(), so s[0].0
        // is below all of them
        assert(forall|i: int|
            0 <= i < s.drop_first().len() ==> lex_lt(s[0].0, #[trigger] s.drop_first()[i].0))
            by {
            assert(forall|i: int|
                0 <= i < s.drop_first().len() ==> #[trigger] s.drop_first()[i] == s[i + 1]);
        }
        assert forall|i: int, j: int| 0 <= i < j < r.len() implies lex_lt(r[i].0, r[j].0) by {
            if i == 0 {
                assert(r[j] == rr[j - 1]);
                lemma_put_key_bound(s.drop_first(), k, v, s[0].0, j - 1);
            } else {
                assert(r[i] == rr[i - 1]);
                assert(r[j] == rr[j - 1]);
                assert(lex_lt(rr[i - 1].0, rr[j - 1].0));
            }
        }
        assert(map_find(r, k) == Some(v)) by {
            assert(r.drop_first() =~= rr);
        }
        assert forall|k2: Seq<u8>| k2 != k implies map_find(r, k2) == map_find(s, k2) by {
            assert(r.drop_first() =~= rr);
            if k2 == s[0].0 {
                assert(map_find(r, k2) == Some(s[0].1));
                assert(map_find(s, k2) == Some(s[0].1));
            } else {
                assert(map_find(r, k2) == map_find(rr, k2));
                assert(map_find(s, k2) == map_find(s.drop_first(), k2));
                assert(map_find(rr, k2) == map_find(s.drop_first(), k2));
            }
        }
    }
}

/// Every key of `map_put(s, k, v)` is `k` or a key of `s`; so a strict lower
/// bound on both stays a strict lower bound.
proof fn lemma_put_key_bound<T>(s: Seq<(Seq<u8>, T)>, k: Seq<u8>, v: T, lo: Seq<u8>, j: int)
    requires
        lex_lt(lo, k),
        forall|i: int| 0 <= i < s.len() ==> lex_lt(lo, #[trigger] s[i].0),
        0 <= j < map_put(s, k, v).len(),
    ensures
        lex_lt(lo, map_put(s, k, v)[j].0),
    decreases s.len(),
{
    let r = map_put(s, k, v);
    if s.len() == 0 {
    } else if lex_lt(k, s[0].0) {
        if j >= 1 {
            assert(r[j] == s[j - 1]);
        }
    } else if k == s[0].0 {
        if j >= 1 {
            assert(r[j] == s.drop_first()[j - 1]);
            assert(s.drop_first()[j - 1] == s[j]);
        }
    } else {
        if j >= 1 {
            assert(r[j] == map_put(s.drop_first(), k, v)[j - 1]);
            assert(forall|i: int|
                0 <= i < s.drop_first().len() ==> lex_lt(lo, #[trigger] s.drop_first()[i].0));
            lemma_put_key_bound(s.drop_first(), k, v, lo, j - 1);
        }
    }
}

/// An ordered map from byte-string keys to values, as a sorted vector of
/// entries.
#[derive(Debug)]
pub struct SortedMap<V> {
    entries: Vec<(Vec<u8>, V)>,
}

impl<V: View> View for SortedMap<V> {
    type V = Seq<(Seq<u8>, <V as View>::V)>;

    closed spec fn view(&self) -> Seq<(Seq<u8>, <V as View>::V)> {
        self.entries@.map_values(|p: (Vec<u8>, V)| (p.0@, p.1@))
    }
}

impl<V: View> SortedMap<V> {
    /// Keys strictly ascending: the structural invariant.
    pub open spec fn wf(&self) -> bool {
        keys_sorted(self@)
    }

    pub fn new() -> (r: Self)
        ensures
            r@ == Seq::<(Seq<u8>, <V as View>::V)>::empty(),
            r.wf(),
    {
        let r = SortedMap { entries: Vec::new() };
        proof {
            assert(r@ =~= Seq::<(Seq<u8>, <V as View>::V)>::empty());
        }
        r
    }

    pub fn len(&self) -> (r: usize)
        ensures
            r == self@.len(),
    {
        self.entries.len()
    }

    /// The key and value at position `i`, in ascending key order.
    pub fn entry_at(&self, i: usize) -> (r: (&Vec<u8>, &V))
        requires
            i < self@.len(),
        ensures
            r.0@ == self@[i as int].0,
            r.1@ == self@[i as int].1,
    {
        let e = &self.entries[i];
        (&e.0, &e.1)
    }

    /// Look the key up; `None` exactly when no entry carries it.
    pub fn get(&self, k: &Vec<u8>) -> (r: Option<&V>)
        ensures
            match r {
                Some(v) => map_find(self@, k@) == Some(v@),
                None => map_find(self@, k@) is None,
            },
    {
        let n = self.entries.len();
        let mut i: usize = 0;
        proof {
            assert(self@.skip(0) =~= self@);
        }
        while i < n
            invariant
                0 <= i <= n == self@.len(),
                forall|j: int| 0 <= j < i ==> #[trigger] self@[j].0 != k@,
                map_find(self@, k@) == map_find(self@.skip(i as int), k@),
            decreases n - i,
        {
            let e = &self.entries[i];
            proof {
                assert(self@.skip(i as int)[0] == self@[i as int]);
                assert(self@.skip(i as int).drop_first() =~= self@.skip(i + 1));
            }
            match lex_cmp(&e.0, k) {
                Cmp::Eq => {
                    return Some(&e.1);
                },
                _ => {},
            }
            i += 1;
        }
        proof {
            assert(self@.skip(n as int) =~= Seq::<(Seq<u8>, <V as View>::V)>::empty());
        }
        None
    }

    /// Write `v` under `k`, replacing any earlier value for the same key.
    pub fn insert(&mut self, k: Vec<u8>, v: V)
        requires
            old(self).wf(),
        ensures
            final(self)@ == map_put(old(self)@, k@, v@),
            final(self).wf(),
    {
        proof {
            lemma_map_put_sorted(old(self)@, k@, v@);
        }
        let n = self.entries.len();
        let mut i: usize = 0;
        while i < n
            invariant
                0 <= i <= n == self@.len(),
                self == old(self),
                old(self).wf(),
                forall|j: int| 0 <= j < i ==> lex_lt(#[trigger] self@[j].0, k@),
            decreases n - i,
        {
            let e = &self.entries[i];
            match lex_cmp(&e.0, &k) {
                Cmp::Lt => {
                    i += 1;
                },
                Cmp::Eq => {
                    proof {
                        lemma_map_put_sorted(old(self)@, k@, v@);
                        lemma_put_prefix_eq(self@, k@, v@, i as int);
                    }
                    self.entries.remove(i);
                    self.entries.insert(i, (k, v));
                    proof {
                        assert(self@ =~= map_put(old(self)@, k@, v@));
                    }
                    return ;
                },
                Cmp::Gt => {
                    proof {
                        lemma_map_put_sorted(old(self)@, k@, v@);
                        lemma_put_prefix_lt(self@, k@, v@, i as int);
                    }
                    self.entries.insert(i, (k, v));
                    proof {
                        assert(self@ =~= map_put(old(self)@, k@, v@));
                    }
                    return ;
                },
            }
        }
        proof {
            lemma_map_put_sorted(old(self)@, k@, v@);
            lemma_put_prefix_end(self@, k@, v@);
        }
        self.entries.push((k, v));
        proof {
            assert(self@ =~= map_put(old(self)@, k@, v@));
        }
    }
}

/// When the first `i` keys are below `k` and key `i` equals `k`, `map_put`
/// replaces entry `i` in place.
proof fn lemma_put_prefix_eq<T>(s: Seq<(Seq<u8>, T)>, k: Seq<u8>, v: T, i: int)
    requires
        0 <= i < s.len(),
        forall|j: int| 0 <= j < i ==> lex_lt(#[trigger] s[j].0, k),
        s[i].0 == k,
        keys_sorted(s),
    ensures
        map_put(s, k, v) == s.update(i, (k, v)),
    decreases i,
{
    if i == 0 {
        assert(!lex_lt(k, s[0].0)) by {
            lemma_lex_connected(k, s[0].0);
        }
        assert(map_put(s, k, v) =~= s.update(0, (k, v)));
    } else {
        assert(!lex_lt(k, s[0].0) && k != s[0].0) by {
            lemma_lex_connected(k, s[0].0);
        }
        assert(keys_sorted(s.drop_first())) by {
            lemma_sorted_drop_first(s);
        }
        lemma_put_prefix_eq(s.drop_first(), k, v, i - 1);
        assert(map_put(s, k, v) =~= s.update(i, (k, v)));
    }
}

/// When the first `i` keys are below `k` and key `i` is above it, `map_put`
/// inserts the new entry at position `i`.
proof fn lemma_put_prefix_lt<T>(s: Seq<(Seq<u8>, T)>, k: Seq<u8>, v: T, i: int)
    requires
        0 <= i < s.len(),
        forall|j: int| 0 <= j < i ==> lex_lt(#[trigger] s[j].0, k),
        lex_lt(k, s[i].0),
        keys_sorted(s),
    ensures
        map_put(s, k, v) == s.take(i) + seq![(k, v)] + s.skip(i),
    decreases i,
{
    if i == 0 {
        assert(map_put(s, k, v) =~= s.take(0) + seq![(k, v)] + s.skip(0));
    } else {
        assert(!lex_lt(k, s[0].0) && k != s[0].0) by {
            lemma_lex_connected(k, s[0].0);
        }
        assert(keys_sorted(s.drop_first())) by {
            lemma_sorted_drop_first(s);
        }
        lemma_put_prefix_lt(s.drop_first(), k, v, i - 1);
        assert(s.drop_first().take(i - 1) =~= s.take(i).drop_first());
        assert(s.drop_first().skip(i - 1) =~= s.skip(i));
        assert(map_put(s, k, v) =~= s.take(i) + seq![(k, v)] + s.skip(i));
    }
}

/// When every key is below `k`, `map_put` appends at the end.
proof fn lemma_put_prefix_end<T>(s: Seq<(Seq<u8>, T)>, k: Seq<u8>, v: T)
    requires
        forall|j: int| 0 <= j < s.len() ==> lex_lt(#[trigger] s[j].0, k),
        keys_sorted(s),
    ensures
        map_put(s, k, v) == s.push((k, v)),
    decreases s.len(),
{
    if s.len() == 0 {
        assert(map_put(s, k, v) =~= s.push((k, v)));
    } else {
        assert(!lex_lt(k, s[0].0) && k != s[0].0) by {
            lemma_lex_connected(k, s[0].0);
        }
        assert(keys_sorted(s.drop_first())) by {
            lemma_sorted_drop_first(s);
        }
        lemma_put_prefix_end(s.drop_first(), k, v);
        assert(map_put(s, k, v) =~= s.push((k, v)));
    }
}

pub proof fn lemma_sorted_drop_first<T>(s: Seq<(Seq<u8>, T)>)
    requires
        keys_sorted(s),
        s.len() > 0,
    ensures
        keys_sorted(s.drop_first()),
{
    assert forall|i: int, j: int| 0 <= i < j < s.drop_first().len() implies lex_lt(
        #[trigger] s.drop_first()[i].0,
        #[trigger] s.drop_first()[j].0,
    ) by {
        assert(s.drop_first()[i] == s[i + 1]);
        assert(s.drop_first()[j] == s[j + 1]);
    }
}

} // verus!
