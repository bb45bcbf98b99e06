//! An ordered key-value store held in memory.
use vstd::prelude::*;
use crate::bytes::{copy_range, lex_lt, lemma_lex_transitive};
use crate::log::capped;
use crate::engine::{Engine, StatusView, Selector, Status, entry_keys, lists_selected, selector_admits, selects};
use crate::error::Result;
use crate::ordmap::{ByteMap, keys_ascend};

verus! {

/// Copies a byte vector.
pub fn copy_bytes(v: &Vec<u8>) -> (r: Vec<u8>)
    ensures
        r@ == v@,
{
    let r = copy_range(v.as_slice(), 0, v.len());
    assert(v@.subrange(0, v@.len() as int) =~= v@);
    r
}

/// The bytes that the keys in `keys` and their values take.
pub open spec fn stored_bytes(keys: Seq<Seq<u8>>, m: Map<Seq<u8>, Seq<u8>>) -> int
    decreases keys.len(),
{
    if keys.len() == 0 {
        0
    } else {
        stored_bytes(keys.drop_last(), m) + keys.last().len() + m[keys.last()].len()
    }
}

proof fn lemma_stored_bytes_nonneg(keys: Seq<Seq<u8>>, m: Map<Seq<u8>, Seq<u8>>)
    ensures
        stored_bytes(keys, m) >= 0,
    decreases keys.len(),
{
    if keys.len() > 0 {
        lemma_stored_bytes_nonneg(keys.drop_last(), m);
    }
}

/// A store that keeps its entries in memory, ordered by key.
pub struct Memory {
    data: ByteMap<Vec<u8>>,
}

impl Memory {
    pub fn new() -> (r: Memory)
        ensures
            r.wf(),
            r.contents() == Map::<Seq<u8>, Seq<u8>>::empty(),
    {
        let r = Memory { data: ByteMap::new() };
        assert(r.contents() =~= Map::<Seq<u8>, Seq<u8>>::empty());
        r
    }
}

impl Engine for Memory {
    closed spec fn contents(&self) -> Map<Seq<u8>, Seq<u8>> {
        self.data@.map_values(|v: Vec<u8>| v@)
    }

    closed spec fn wf(&self) -> bool {
        self.data.wf()
    }

    open spec fn infallible(&self) -> bool {
        true
    }

    closed spec fn status_view(&self) -> StatusView {
        (
            "memory"@,
            self.contents().len() as u64,
            capped(stored_bytes(self.data.ordered_keys(), self.contents())),
            0,
            0,
            0,
        )
    }

    fn delete(&mut self, key: &[u8]) -> (r: Result<()>) {
        self.data.remove(key);
        assert(self.contents() =~= old(self).contents().remove(key@));
        Ok(())
    }

    fn get(&mut self, key: &[u8]) -> (r: Result<Option<Vec<u8>>>) {
        match self.data.get(key) {
            Some(v) => Ok(Some(copy_bytes(v))),
            None => Ok(None),
        }
    }

    fn set(&mut self, key: &[u8], value: Vec<u8>) -> (r: Result<()>)
        ensures
            r is Ok,
    {
        let k = copy_range(key, 0, key.len());
        assert(key@.subrange(0, key@.len() as int) =~= key@);
        self.data.insert(k, value);
        assert(self.contents() =~= old(self).contents().insert(key@, value@));
        Ok(())
    }

    fn flush(&mut self) -> (r: Result<()>) {
        Ok(())
    }

    fn scan(&mut self, sel: Selector) -> (r: Result<Vec<(Vec<u8>, Vec<u8>)>>)
        ensures
            r is Ok,
    {
        let ghost m = self.contents();
        proof {
            self.data.lemma_ordered_keys();
            assert(self.contents().dom() =~= self.data@.dom());
        }
        let ghost ok = self.data.ordered_keys();
        proof {
            self.data.lemma_ordered_keys();
        }
        let n = self.data.len();
        let mut out: Vec<(Vec<u8>, Vec<u8>)> = Vec::new();
        let mut i: usize = 0;
        while i < n
            invariant
                self.wf(),
                m == self.contents(),
                ok == self.data.ordered_keys(),
                n == ok.len(),
                keys_ascend(ok),
                i <= n,
                keys_ascend(entry_keys(out@)),
                forall|o: int, j: int| 0 <= o < out@.len() && i <= j < n ==> lex_lt(#[trigger] out@[o].0@, #[trigger] ok[j]),
                forall|o: int| 0 <= o < out@.len() ==> selects(sel, #[trigger] out@[o].0@) && m.contains_key(out@[o].0@) && m[out@[o].0@] == out@[o].1@,
                forall|j: int| 0 <= j < i && selects(sel, #[trigger] ok[j]) ==> exists|o: int| 0 <= o < out@.len() && #[trigger] out@[o].0@ == ok[j],
            decreases n - i,
        {
            let k = self.data.key_at(i);
            if selector_admits(&sel, k.as_slice()) {
                let kc = copy_bytes(k);
                let vc = copy_bytes(self.data.value_at(i));
                let ghost before = out@;
                out.push((kc, vc));
                proof {
                    assert(out@[before.len() as int] == (kc, vc));
                    assert forall|a: int, b: int| 0 <= a < b < out@.len() implies lex_lt(#[trigger] entry_keys(out@)[a], #[trigger] entry_keys(out@)[b]) by {
                        assert(entry_keys(out@)[a] == out@[a].0@);
                        assert(entry_keys(out@)[b] == out@[b].0@);
                        if b < before.len() {
                            assert(entry_keys(before)[a] == before[a].0@);
                            assert(entry_keys(before)[b] == before[b].0@);
                        }
                    }
                    assert forall|o: int, j: int| 0 <= o < out@.len() && i + 1 <= j < n implies lex_lt(#[trigger] out@[o].0@, #[trigger] ok[j]) by {
                        if o < before.len() {
                            assert(out@[o] == before[o]);
                        }
                    }
                    assert forall|j: int| 0 <= j < i + 1 && selects(sel, #[trigger] ok[j]) implies exists|o: int| 0 <= o < out@.len() && #[trigger] out@[o].0@ == ok[j] by {
                        if j < i {
                            let o = choose|o: int| 0 <= o < before.len() && #[trigger] before[o].0@ == ok[j];
                            assert(out@[o] == before[o]);
                        } else {
                            assert(out@[before.len() as int].0@ == ok[j]);
                        }
                    }
                }
            } else {
                proof {
                    assert forall|o: int, j: int| 0 <= o < out@.len() && i + 1 <= j < n implies lex_lt(#[trigger] out@[o].0@, #[trigger] ok[j]) by {
                        lemma_lex_transitive(out@[o].0@, ok[i as int], ok[j]);
                    }
                }
            }
            proof {
                assert forall|o: int, j: int| 0 <= o < out@.len() && i + 1 <= j < n implies lex_lt(#[trigger] out@[o].0@, #[trigger] ok[j]) by {
                    if 0 <= o < out@.len() && i + 1 <= j < n && !lex_lt(out@[o].0@, ok[j]) {
                        if out@[o].0@ != ok[i as int] {
                            lemma_lex_transitive(out@[o].0@, ok[i as int], ok[j]);
                        }
                    }
                }
            }
            i = i + 1;
        }
        Ok(out)
    }

    fn status(&mut self) -> (r: Result<Status>) {
        proof {
            self.data.lemma_ordered_keys();
            assert(self.contents().dom() =~= self.data@.dom());
        }
        let ghost ks = self.data.ordered_keys();
        let ghost m = self.contents();
        let n = self.data.len();
        let mut size: u64 = 0;
        let mut i: usize = 0;
        while i < n
            invariant
                self.wf(),
                ks == self.data.ordered_keys(),
                m == self.contents(),
                n == ks.len(),
                forall|j: int| 0 <= j < ks.len() ==> self.data@.contains_key(#[trigger] ks[j]),
                i <= n,
                size == capped(stored_bytes(ks.take(i as int), m)),
            decreases n - i,
        {
            let step = self.data.key_at(i).len() as u64;
            let step2 = self.data.value_at(i).len() as u64;
            proof {
                assert(ks.take(i + 1).drop_last() =~= ks.take(i as int));
                assert(ks.take(i + 1).last() == ks[i as int]);
                lemma_stored_bytes_nonneg(ks.take(i as int), m);
            }
            size = if size > u64::MAX - step { u64::MAX } else { size + step };
            size = if size > u64::MAX - step2 { u64::MAX } else { size + step2 };
            i = i + 1;
        }
        assert(ks.take(n as int) =~= ks);
        Ok(Status {
            name: String::from_str("memory"),
            keys: n as u64,
            size,
            total_disk_size: 0,
            live_disk_size: 0,
            garbage_disk_size: 0,
        })
    }
}

} // verus!
