//! An ordered map from byte strings to values, kept as a vector of entries
//! sorted by key in byte-lexicographic order. (Every clause of vstd's
//! `BTreeMap` specification is conditioned on `obeys_cmp::<Key>()`, and Verus
//! cannot prove `obeys_cmp::<Vec<u8>>()`: vstd states no ordering laws for
//! `Vec`. A std map keyed by byte vectors would carry no usable contract.)
use vstd::prelude::*;
use crate::bytes::{lex_lt, lex_less, bytes_eq, lemma_lex_transitive, lemma_lex_total, lemma_lex_irreflexive, copy_range};
use crate::engine::{Selector, selector_admits, selects};

verus! {

/// Whether the keys of `s` ascend strictly.
pub open spec fn keys_ascend(s: Seq<Seq<u8>>) -> bool {
    forall|i: int, j: int| 0 <= i < j < s.len() ==> lex_lt(s[i], s[j])
}

pub struct ByteMap<V> {
    entries: Vec<(Vec<u8>, V)>,
    contents: Ghost<Map<Seq<u8>, V>>,
}

impl<V> View for ByteMap<V> {
    type V = Map<Seq<u8>, V>;

    closed spec fn view(&self) -> Map<Seq<u8>, V> {
        self.contents@
    }
}

impl<V> ByteMap<V> {
    /// The keys, in ascending order.
    pub closed spec fn ordered_keys(&self) -> Seq<Seq<u8>> {
        self.entries@.map_values(|e: (Vec<u8>, V)| e.0@)
    }

    pub closed spec fn wf(&self) -> bool {
        let e = self.entries@;
        let m = self.contents@;
        &&& keys_ascend(self.ordered_keys())
        &&& forall|i: int| 0 <= i < e.len() ==> m.contains_key(#[trigger] e[i].0@) && m[e[i].0@] == e[i].1
        &&& forall|k: Seq<u8>| m.contains_key(k) ==> exists|i: int| 0 <= i < e.len() && #[trigger] e[i].0@ == k
        &&& m.dom().finite()
        &&& m.len() == e.len()
    }

    /// The ordered keys list the map's domain, each once, ascending.
    pub proof fn lemma_ordered_keys(&self)
        requires
            self.wf(),
        ensures
            keys_ascend(self.ordered_keys()),
            self.ordered_keys().len() == self@.len(),
            forall|i: int| 0 <= i < self.ordered_keys().len() ==> self@.contains_key(#[trigger] self.ordered_keys()[i]),
            forall|k: Seq<u8>| self@.contains_key(k) ==> exists|i: int| 0 <= i < self.ordered_keys().len() && #[trigger] self.ordered_keys()[i] == k,
            self@.dom().finite(),
    {
        assert forall|k: Seq<u8>| self@.contains_key(k) implies exists|i: int| 0 <= i < self.ordered_keys().len() && #[trigger] self.ordered_keys()[i] == k by {
            let i = choose|i: int| 0 <= i < self.entries@.len() && #[trigger] self.entries@[i].0@ == k;
            assert(self.ordered_keys()[i] == k);
        }
    }

    pub fn new() -> (r: Self)
        ensures
            r.wf(),
            r@ == Map::<Seq<u8>, V>::empty(),
    {
        ByteMap { entries: Vec::new(), contents: Ghost(Map::empty()) }
    }

    pub fn len(&self) -> (r: usize)
        requires
            self.wf(),
        ensures
            r == self@.len(),
    {
        self.entries.len()
    }

    /// Where `key` stands or would stand: the number of keys before it, and
    /// whether it is present at that index.
    fn locate(&self, key: &[u8]) -> (r: (usize, bool))
        requires
            self.wf(),
        ensures
            r.0 <= self.entries@.len(),
            forall|j: int| 0 <= j < r.0 ==> lex_lt(#[trigger] self.entries@[j].0@, key@),
            forall|j: int| r.0 <= j < self.entries@.len() ==> !lex_lt(#[trigger] self.entries@[j].0@, key@),
            r.1 <==> (r.0 < self.entries@.len() && self.entries@[r.0 as int].0@ == key@),
            !r.1 ==> (forall|j: int| r.0 <= j < self.entries@.len() ==> lex_lt(key@, #[trigger] self.entries@[j].0@)),
            r.1 <==> self@.contains_key(key@),
    {
        let ghost e = self.entries@;
        assert(forall|j: int| 0 <= j < e.len() ==> self.ordered_keys()[j] == #[trigger] e[j].0@);
        let mut lo: usize = 0;
        let mut hi: usize = self.entries.len();
        while lo < hi
            invariant
                e == self.entries@,
                self.wf(),
                lo <= hi <= e.len(),
                forall|j: int| 0 <= j < lo ==> lex_lt(#[trigger] e[j].0@, key@),
                forall|j: int| hi <= j < e.len() ==> !lex_lt(#[trigger] e[j].0@, key@),
            decreases hi - lo,
        {
            let mid = lo + (hi - lo) / 2;
            if lex_less(self.entries[mid].0.as_slice(), key) {
                assert forall|j: int| 0 <= j <= mid implies lex_lt(#[trigger] e[j].0@, key@) by {
                    if j < mid {
                        assert(self.ordered_keys()[j] == e[j].0@);
                        assert(self.ordered_keys()[mid as int] == e[mid as int].0@);
                        lemma_lex_transitive(e[j].0@, e[mid as int].0@, key@);
                    }
                }
                lo = mid + 1;
            } else {
                assert forall|j: int| mid <= j < e.len() implies !lex_lt(#[trigger] e[j].0@, key@) by {
                    if mid < j && lex_lt(e[j].0@, key@) {
                        assert(self.ordered_keys()[j] == e[j].0@);
                        assert(self.ordered_keys()[mid as int] == e[mid as int].0@);
                        lemma_lex_transitive(e[mid as int].0@, e[j].0@, key@);
                    }
                }
                hi = mid;
            }
        }
        let found = lo < self.entries.len() && bytes_eq(self.entries[lo].0.as_slice(), key);
        proof {
            if !found {
                assert forall|j: int| lo <= j < e.len() implies lex_lt(key@, #[trigger] e[j].0@) by {
                    lemma_lex_total(key@, e[j].0@);
                    if j > lo {
                        lemma_lex_total(key@, e[lo as int].0@);
                        assert(self.ordered_keys()[j] == e[j].0@);
                        assert(self.ordered_keys()[lo as int] == e[lo as int].0@);
                        if key@ != e[lo as int].0@ {
                            lemma_lex_transitive(key@, e[lo as int].0@, e[j].0@);
                        }
                    }
                }
                if self@.contains_key(key@) {
                    let i = choose|i: int| 0 <= i < e.len() && #[trigger] e[i].0@ == key@;
                    lemma_lex_irreflexive(key@);
                }
            }
        }
        (lo, found)
    }

    /// Looks up the value stored under `key`.
    pub fn get(&self, key: &[u8]) -> (r: Option<&V>)
        requires
            self.wf(),
        ensures
            r is Some <==> self@.contains_key(key@),
            r matches Some(v) ==> *v == self@[key@],
    {
        let (i, found) = self.locate(key);
        if found {
            Some(&self.entries[i].1)
        } else {
            None
        }
    }

    pub fn contains_key(&self, key: &[u8]) -> (r: bool)
        requires
            self.wf(),
        ensures
            r == self@.contains_key(key@),
    {
        self.locate(key).1
    }

    /// Stores `value` under `key`, replacing what was there.
    pub fn insert(&mut self, key: Vec<u8>, value: V)
        requires
            old(self).wf(),
        ensures
            final(self).wf(),
            final(self)@ == old(self)@.insert(key@, value),
    {
        let (i, found) = self.locate(key.as_slice());
        let ghost e = self.entries@;
        let ghost m = self.contents@;
        let ghost k = key@;
        proof {
            assert(forall|j: int| 0 <= j < e.len() ==> self.ordered_keys()[j] == #[trigger] e[j].0@);
        }
        if found {
            self.entries.set(i, (key, value));
            self.contents = Ghost(m.insert(k, value));
            proof {
                let e2 = self.entries@;
                assert(forall|j: int| 0 <= j < e2.len() ==> self.ordered_keys()[j] == #[trigger] e2[j].0@);
                assert forall|kk: Seq<u8>| self.contents@.contains_key(kk) implies exists|j: int| 0 <= j < e2.len() && #[trigger] e2[j].0@ == kk by {
                    if kk != k {
                        let j = choose|j: int| 0 <= j < e.len() && #[trigger] e[j].0@ == kk;
                        assert(e2[j].0@ == kk);
                    } else {
                        assert(e2[i as int].0@ == kk);
                    }
                }
                assert forall|a: int| 0 <= a < e2.len() implies self.contents@.contains_key(#[trigger] e2[a].0@) && self.contents@[e2[a].0@] == e2[a].1 by {
                    if a != i {
                        assert(e2[a] == e[a]);
                    }
                }
                assert(self.contents@.dom() =~= m.dom());
            }
        } else {
            self.entries.insert(i, (key, value));
            self.contents = Ghost(m.insert(k, value));
            proof {
                let e2 = self.entries@;
                assert(forall|j: int| 0 <= j < e2.len() ==> self.ordered_keys()[j] == #[trigger] e2[j].0@);
                assert forall|a: int, b: int| 0 <= a < b < e2.len() implies lex_lt(#[trigger] self.ordered_keys()[a], #[trigger] self.ordered_keys()[b]) by {
                    if b < i {
                        assert(self.ordered_keys()[a] == old(self).ordered_keys()[a]);
                        assert(self.ordered_keys()[b] == old(self).ordered_keys()[b]);
                    } else if b == i {
                    } else if a < i {
                        assert(e2[b] == e[b - 1]);
                        lemma_lex_transitive(e[a].0@, k, e[b - 1].0@);
                    } else if a == i {
                        assert(e2[b] == e[b - 1]);
                    } else {
                        assert(e2[a] == e[a - 1]);
                        assert(e2[b] == e[b - 1]);
                        assert(old(self).ordered_keys()[a - 1] == e[a - 1].0@);
                        assert(old(self).ordered_keys()[b - 1] == e[b - 1].0@);
                    }
                }
                assert forall|kk: Seq<u8>| self.contents@.contains_key(kk) implies exists|j: int| 0 <= j < e2.len() && #[trigger] e2[j].0@ == kk by {
                    if kk != k {
                        let j = choose|j: int| 0 <= j < e.len() && #[trigger] e[j].0@ == kk;
                        if j < i {
                            assert(e2[j].0@ == kk);
                        } else {
                            assert(e2[j + 1].0@ == kk);
                        }
                    } else {
                        assert(e2[i as int].0@ == kk);
                    }
                }
                assert forall|a: int| 0 <= a < e2.len() implies self.contents@.contains_key(#[trigger] e2[a].0@) && self.contents@[e2[a].0@] == e2[a].1 by {
                    if a < i {
                        assert(e2[a] == e[a]);
                        lemma_lex_irreflexive(k);
                    } else if a > i {
                        assert(e2[a] == e[a - 1]);
                        lemma_lex_irreflexive(k);
                    }
                }
                assert(!m.contains_key(k));
            }
        }
    }

    /// Removes `key`; reports whether it was present.
    pub fn remove(&mut self, key: &[u8]) -> (r: bool)
        requires
            old(self).wf(),
        ensures
            final(self).wf(),
            final(self)@ == old(self)@.remove(key@),
            r == old(self)@.contains_key(key@),
    {
        let (i, found) = self.locate(key);
        let ghost e = self.entries@;
        let ghost m = self.contents@;
        let ghost k = key@;
        if found {
            proof {
                assert(forall|j: int| 0 <= j < e.len() ==> self.ordered_keys()[j] == #[trigger] e[j].0@);
            }
            self.entries.remove(i);
            self.contents = Ghost(m.remove(k));
            proof {
                let e2 = self.entries@;
                assert(forall|j: int| 0 <= j < e2.len() ==> self.ordered_keys()[j] == #[trigger] e2[j].0@);
                assert forall|a: int, b: int| 0 <= a < b < e2.len() implies lex_lt(#[trigger] self.ordered_keys()[a], #[trigger] self.ordered_keys()[b]) by {
                    let a0 = if a < i { a } else { a + 1 };
                    let b0 = if b < i { b } else { b + 1 };
                    assert(e2[a] == e[a0]);
                    assert(e2[b] == e[b0]);
                    assert(old(self).ordered_keys()[a0] == e[a0].0@);
                    assert(old(self).ordered_keys()[b0] == e[b0].0@);
                }
                assert forall|kk: Seq<u8>| self.contents@.contains_key(kk) implies exists|j: int| 0 <= j < e2.len() && #[trigger] e2[j].0@ == kk by {
                    let j = choose|j: int| 0 <= j < e.len() && #[trigger] e[j].0@ == kk;
                    if j < i {
                        assert(e2[j].0@ == kk);
                    } else {
                        assert(e2[j - 1].0@ == kk);
                    }
                }
                assert forall|a: int| 0 <= a < e2.len() implies self.contents@.contains_key(#[trigger] e2[a].0@) && self.contents@[e2[a].0@] == e2[a].1 by {
                    let a0 = if a < i { a } else { a + 1 };
                    assert(e2[a] == e[a0]);
                    assert(old(self).ordered_keys()[a0] == e[a0].0@);
                    assert(old(self).ordered_keys()[i as int] == e[i as int].0@);
                    lemma_lex_irreflexive(k);
                }
            }
            true
        } else {
            proof {
                assert(m.remove(k) =~= m);
            }
            false
        }
    }

    /// The key at index `i` of the ascending order.
    pub fn key_at(&self, i: usize) -> (r: &Vec<u8>)
        requires
            self.wf(),
            i < self.ordered_keys().len(),
        ensures
            r@ == self.ordered_keys()[i as int],
    {
        &self.entries[i].0
    }

    /// The value stored under the key at index `i` of the ascending order.
    pub fn value_at(&self, i: usize) -> (r: &V)
        requires
            self.wf(),
            i < self.ordered_keys().len(),
        ensures
            self@.contains_key(self.ordered_keys()[i as int]),
            *r == self@[self.ordered_keys()[i as int]],
    {
        &self.entries[i].1
    }

    /// The keys that `sel` selects, ascending.
    pub fn select_keys(&self, sel: &Selector) -> (r: Vec<Vec<u8>>)
        requires
            self.wf(),
        ensures
            keys_ascend(r@.map_values(|k: Vec<u8>| k@)),
            forall|i: int| 0 <= i < r@.len() ==> selects(*sel, #[trigger] r@[i]@) && self@.contains_key(r@[i]@),
            forall|k: Seq<u8>| #[trigger] self@.contains_key(k) && selects(*sel, k) ==> exists|i: int| 0 <= i < r@.len() && #[trigger] r@[i]@ == k,
    {
        let ghost ok = self.ordered_keys();
        proof {
            self.lemma_ordered_keys();
        }
        let n = self.entries.len();
        let mut out: Vec<Vec<u8>> = Vec::new();
        let mut i: usize = 0;
        while i < n
            invariant
                self.wf(),
                ok == self.ordered_keys(),
                n == ok.len(),
                keys_ascend(ok),
                forall|j: int| 0 <= j < ok.len() ==> self@.contains_key(#[trigger] ok[j]),
                i <= n,
                keys_ascend(out@.map_values(|k: Vec<u8>| k@)),
                forall|o: int, j: int| 0 <= o < out@.len() && i <= j < n ==> lex_lt(#[trigger] out@[o]@, #[trigger] ok[j]),
                forall|o: int| 0 <= o < out@.len() ==> selects(*sel, #[trigger] out@[o]@) && self@.contains_key(out@[o]@),
                forall|j: int| 0 <= j < i && selects(*sel, #[trigger] ok[j]) ==> exists|o: int| 0 <= o < out@.len() && #[trigger] out@[o]@ == ok[j],
            decreases n - i,
        {
            let k = self.key_at(i);
            if selector_admits(sel, k.as_slice()) {
                let kc = copy_range(k.as_slice(), 0, k.len());
                assert(k@.subrange(0, k@.len() as int) =~= k@);
                let ghost before = out@;
                out.push(kc);
                proof {
                    let ks = out@.map_values(|k: Vec<u8>| k@);
                    let kb = before.map_values(|k: Vec<u8>| k@);
                    assert forall|a: int, b: int| 0 <= a < b < out@.len() implies lex_lt(#[trigger] ks[a], #[trigger] ks[b]) by {
                        if b < before.len() {
                            assert(kb[a] == before[a]@);
                            assert(kb[b] == before[b]@);
                        }
                    }
                    assert forall|j: int| 0 <= j < i + 1 && selects(*sel, #[trigger] ok[j]) implies exists|o: int| 0 <= o < out@.len() && #[trigger] out@[o]@ == ok[j] by {
                        if j < i {
                            let o = choose|o: int| 0 <= o < before.len() && #[trigger] before[o]@ == ok[j];
                            assert(out@[o] == before[o]);
                        } else {
                            assert(out@[before.len() as int]@ == ok[j]);
                        }
                    }
                }
            }
            proof {
                assert forall|o: int, j: int| 0 <= o < out@.len() && i + 1 <= j < n implies lex_lt(#[trigger] out@[o]@, #[trigger] ok[j]) by {
                    if out@[o]@ != ok[i as int] {
                        lemma_lex_transitive(out@[o]@, ok[i as int], ok[j]);
                    }
                }
            }
            i = i + 1;
        }
        out
    }
}

} // verus!
