//! Snapshot-isolated transactions over an ordered key-value store.
//!
//! Each read-write transaction takes a fresh version at begin and records the
//! versions that were open at that instant. A write stores the value under
//! `Version(key, version)`; a read sees, of a key's versions, the highest one
//! that is at most its own version and was not open when it began.
use vstd::prelude::*;
use crate::bytes::{be64, be64_value, has_prefix, lemma_be64, push_be64, read_be64};
use crate::engine::{Engine, Selector, entry_keys, lists_selected, opt_view, selector_admits, selects};
use crate::ordmap::{ByteMap, keys_ascend};
use crate::memory::Memory;
use crate::error::{Error, Result};
use crate::keys::{
    Key, TAG_TXN_ACTIVE, TAG_TXN_WRITE, TAG_VERSION, active_key, encoded, escaped,
    next_version_key, push_escaped, read_escaped, unescaped, version_key, version_prefix,
    write_key, lemma_unescape_escaped, lemma_unescaped_is_escaped,
};
use crate::memory::copy_bytes;

verus! {

/// What a transaction carries: its version, whether it may write, and the
/// versions that were open when it began. It can be stored or sent and later
/// resumed.
pub struct TransactionState {
    pub version: u64,
    pub read_only: bool,
    pub active: Vec<u64>,
}

/// Whether a transaction with state `st` sees what version `v` wrote.
pub open spec fn is_visible(st: TransactionState, v: u64) -> bool {
    v <= st.version && !st.active@.contains(v)
}

/// The stored form of a versioned value: `1` then the bytes, or `0` for a
/// deletion.
pub open spec fn cell(value: Option<Seq<u8>>) -> Seq<u8> {
    match value {
        Some(b) => seq![1u8] + b,
        None => seq![0u8],
    }
}

/// What a stored cell holds; `None` where it is malformed.
pub open spec fn cell_value(c: Seq<u8>) -> Option<Option<Seq<u8>>> {
    if c.len() == 1 && c[0] == 0 {
        Some(None)
    } else if c.len() >= 1 && c[0] == 1 {
        Some(Some(c.drop_first()))
    } else {
        None
    }
}

/// Whether `key` has a value written at version `v`.
pub open spec fn written_at(m: Map<Seq<u8>, Seq<u8>>, key: Seq<u8>, v: u64) -> bool {
    m.contains_key(version_key(key, v))
}

/// Every stored key under `key`'s version prefix is a versioned key.
pub open spec fn versions_wf(m: Map<Seq<u8>, Seq<u8>>, key: Seq<u8>) -> bool {
    forall|k: Seq<u8>|
        #![trigger m.contains_key(k), has_prefix(k, version_prefix(key))]
        m.contains_key(k) && has_prefix(k, version_prefix(key)) ==> k.len() == version_prefix(key).len() + 8
}

/// `v` is the highest version of `key` that `st` sees.
pub open spec fn latest_visible(m: Map<Seq<u8>, Seq<u8>>, st: TransactionState, key: Seq<u8>, v: u64) -> bool {
    &&& is_visible(st, v)
    &&& written_at(m, key, v)
    &&& forall|w: u64| is_visible(st, w) && #[trigger] written_at(m, key, w) ==> w <= v
}

/// What `st` reads for `key`: `Some(None)` where the key does not exist for it,
/// `None` where the cell it would read is malformed.
pub open spec fn read_result(m: Map<Seq<u8>, Seq<u8>>, st: TransactionState, key: Seq<u8>) -> Option<
    Option<Seq<u8>>,
> {
    if exists|v: u64| latest_visible(m, st, key, v) {
        cell_value(m[version_key(key, choose|v: u64| latest_visible(m, st, key, v))])
    } else {
        Some(None)
    }
}

/// A version of `key` that `st` does not see was written: a later transaction,
/// or one open when `st` began, wrote the key first.
pub open spec fn conflicts(m: Map<Seq<u8>, Seq<u8>>, st: TransactionState, key: Seq<u8>) -> bool {
    exists|v: u64| written_at(m, key, v) && !is_visible(st, v)
}

/// The store after `st` writes `value` (or a deletion) to `key`.
pub open spec fn after_write(
    m: Map<Seq<u8>, Seq<u8>>,
    st: TransactionState,
    key: Seq<u8>,
    value: Option<Seq<u8>>,
) -> Map<Seq<u8>, Seq<u8>> {
    m.insert(write_key(st.version, key), Seq::empty()).insert(version_key(key, st.version), cell(value))
}

/// The store after committing a transaction with state `st`.
pub open spec fn after_commit(m: Map<Seq<u8>, Seq<u8>>, st: TransactionState) -> Map<Seq<u8>, Seq<u8>> {
    if st.read_only {
        m
    } else {
        m.remove(active_key(st.version))
    }
}

/// The next version to allocate: the stored counter, or 1.
pub open spec fn next_version(m: Map<Seq<u8>, Seq<u8>>) -> u64 {
    if m.contains_key(next_version_key()) {
        be64_value(m[next_version_key()])
    } else {
        1
    }
}

pub open spec fn next_version_wf(m: Map<Seq<u8>, Seq<u8>>) -> bool {
    m.contains_key(next_version_key()) ==> m[next_version_key()].len() == 8
}

/// Every stored key in the open-transaction namespace is well formed.
pub open spec fn actives_wf(m: Map<Seq<u8>, Seq<u8>>) -> bool {
    forall|k: Seq<u8>|
        #![trigger m.contains_key(k), has_prefix(k, seq![TAG_TXN_ACTIVE])]
        m.contains_key(k) && has_prefix(k, seq![TAG_TXN_ACTIVE]) ==> k.len() == 9
}

/// `a` lists exactly the versions of the open transactions.
pub open spec fn lists_active(a: Seq<u64>, m: Map<Seq<u8>, Seq<u8>>) -> bool {
    forall|v: u64| a.contains(v) <==> m.contains_key(#[trigger] active_key(v))
}

/// The store after beginning a read-write transaction.
pub open spec fn after_begin(m: Map<Seq<u8>, Seq<u8>>) -> Map<Seq<u8>, Seq<u8>> {
    let v = next_version(m);
    m.insert(next_version_key(), be64((v + 1) as u64)).insert(active_key(v), Seq::empty())
}

/// The prefix of the write records of version `v`.
pub open spec fn write_prefix(v: u64) -> Seq<u8> {
    seq![TAG_TXN_WRITE] + be64(v)
}

/// Every stored key under version `v`'s write-record prefix is a write record.
pub open spec fn writes_wf(m: Map<Seq<u8>, Seq<u8>>, v: u64) -> bool {
    forall|k: Seq<u8>|
        #![trigger m.contains_key(k), has_prefix(k, write_prefix(v))]
        m.contains_key(k) && has_prefix(k, write_prefix(v)) ==> exists|key: Seq<u8>| k == #[trigger] write_key(v, key)
}

/// `k` is the versioned key of a key that version `v` recorded writing.
pub open spec fn undone_by(m: Map<Seq<u8>, Seq<u8>>, v: u64, k: Seq<u8>) -> bool {
    exists|key: Seq<u8>| #[trigger] m.contains_key(write_key(v, key)) && k == version_key(key, v)
}

/// The store after rolling back version `v`: the value it wrote to each key
/// is removed, and its open marker is gone.
pub open spec fn after_rollback(m: Map<Seq<u8>, Seq<u8>>, v: u64) -> Map<Seq<u8>, Seq<u8>> {
    Map::new(
        |k: Seq<u8>| m.contains_key(k) && !undone_by(m, v, k) && k != active_key(v),
        |k: Seq<u8>| m[k],
    )
}

/// `f` is `m` with some of the removals of a rollback of version `v` done.
pub open spec fn partly_rolled_back(m: Map<Seq<u8>, Seq<u8>>, f: Map<Seq<u8>, Seq<u8>>, v: u64) -> bool {
    &&& forall|k: Seq<u8>| #[trigger] f.contains_key(k) ==> m.contains_key(k) && f[k] == m[k]
    &&& forall|k: Seq<u8>| m.contains_key(k) && !(#[trigger] f.contains_key(k)) ==> undone_by(m, v, k) || k == active_key(v)
}

/// Whether `v` is one of `a`.
pub fn contains_version(a: &Vec<u64>, v: u64) -> (r: bool)
    ensures
        r == a@.contains(v),
{
    let mut i: usize = 0;
    while i < a.len()
        invariant
            i <= a@.len(),
            forall|j: int| 0 <= j < i ==> a@[j] != v,
        decreases a@.len() - i,
    {
        if a[i] == v {
            return true;
        }
        i = i + 1;
    }
    false
}

fn visible(st: &TransactionState, v: u64) -> (r: bool)
    ensures
        r == is_visible(*st, v),
{
    v <= st.version && !contains_version(&st.active, v)
}

fn encode_cell(value: &Option<Vec<u8>>) -> (r: Vec<u8>)
    ensures
        r@ == cell(opt_view(*value)),
{
    let mut r: Vec<u8> = Vec::new();
    match value {
        Some(b) => {
            r.push(1u8);
            crate::bytes::push_all(&mut r, b.as_slice());
        },
        None => {
            r.push(0u8);
        },
    }
    assert(r@ =~= cell(opt_view(*value)));
    r
}

fn decode_cell(c: &Vec<u8>) -> (r: Option<Option<Vec<u8>>>)
    ensures
        match cell_value(c@) {
            None => r is None,
            Some(o) => r matches Some(x) && opt_view(x) == o,
        },
{
    if c.len() == 1 && c[0] == 0 {
        Some(None)
    } else if c.len() >= 1 && c[0] == 1 {
        let b = crate::bytes::copy_range(c.as_slice(), 1, c.len());
        assert(b@ =~= c@.drop_first());
        Some(Some(b))
    } else {
        None
    }
}

fn version_prefix_of(key: &[u8]) -> (r: Vec<u8>)
    ensures
        r@ == version_prefix(key@),
{
    let mut r: Vec<u8> = Vec::new();
    r.push(TAG_VERSION);
    push_escaped(&mut r, key);
    assert(r@ =~= version_prefix(key@));
    r
}

/// A versioned key of `key` starts with its version prefix.
proof fn lemma_version_key_prefix(key: Seq<u8>, v: u64)
    ensures
        has_prefix(version_key(key, v), version_prefix(key)),
        version_key(key, v).len() == version_prefix(key).len() + 8,
        version_key(key, v).subrange(version_prefix(key).len() as int, version_prefix(key).len() as int + 8) == be64(v),
{
    lemma_be64(v, Seq::empty());
    assert(version_key(key, v).subrange(0, version_prefix(key).len() as int) =~= version_prefix(key));
    assert(version_key(key, v).subrange(version_prefix(key).len() as int, version_prefix(key).len() as int + 8) =~= be64(v));
}

/// The version that a key under `key`'s version prefix carries.
pub open spec fn version_of(key: Seq<u8>, k: Seq<u8>) -> u64 {
    be64_value(k.subrange(version_prefix(key).len() as int, version_prefix(key).len() as int + 8))
}

proof fn lemma_version_of(key: Seq<u8>, k: Seq<u8>)
    requires
        has_prefix(k, version_prefix(key)),
        k.len() == version_prefix(key).len() + 8,
    ensures
        k == version_key(key, version_of(key, k)),
{
    let p = version_prefix(key);
    let s = k.subrange(p.len() as int, p.len() as int + 8);
    lemma_be64(0, s);
    assert(k =~= k.subrange(0, p.len() as int) + s);
}

/// The versions of `key` among scanned entries: their versions and which one
/// `st` reads, if any.
fn latest_of(
    st: &TransactionState,
    key: &[u8],
    prefix: &Vec<u8>,
    entries: &Vec<(Vec<u8>, Vec<u8>)>,
    sel: Ghost<Selector>,
    m: Ghost<Map<Seq<u8>, Seq<u8>>>,
) -> (r: Result<Option<usize>>)
    requires
        prefix@ == version_prefix(key@),
        sel@ matches Selector::Prefix(sp) && sp@ == prefix@,
        lists_selected(entries@, m@, sel@),
    ensures
        r is Ok <==> versions_wf(m@, key@),
        r matches Err(e) ==> e == Error::Encoding,
        r matches Ok(None) ==> !exists|v: u64| latest_visible(m@, *st, key@, v),
        r matches Ok(Some(i)) ==> i < entries@.len() && latest_visible(m@, *st, key@, version_of(key@, entries@[i as int].0@))
            && entries@[i as int].0@ == version_key(key@, version_of(key@, entries@[i as int].0@)),
{
    let ghost p = prefix@;
    let mut best: Option<usize> = None;
    let mut bv: u64 = 0;
    let mut i: usize = 0;
    while i < entries.len()
        invariant
            p == prefix@,
            p == version_prefix(key@),
            sel@ matches Selector::Prefix(sp) && sp@ == prefix@,
            lists_selected(entries@, m@, sel@),
            i <= entries@.len(),
            forall|j: int| 0 <= j < i ==> (#[trigger] entries@[j]).0@.len() == p.len() + 8,
            match best {
                None => forall|j: int| 0 <= j < i ==> !is_visible(*st, version_of(key@, (#[trigger] entries@[j]).0@)),
                Some(b) => b < i && bv == version_of(key@, entries@[b as int].0@) && is_visible(*st, bv)
                    && forall|j: int| 0 <= j < i && is_visible(*st, version_of(key@, (#[trigger] entries@[j]).0@)) ==> version_of(key@, entries@[j].0@) <= bv,
            },
        decreases entries@.len() - i,
    {
        let k = &entries[i].0;
        if k.len() < 8 || k.len() - 8 != prefix.len() {
            proof {
                assert(m@.contains_key(k@) && has_prefix(k@, version_prefix(key@)));
            }
            return Err(Error::Encoding);
        }
        let v = read_be64(k.as_slice(), prefix.len());
        if visible(st, v) {
            let better = match best {
                None => true,
                Some(_) => v > bv,
            };
            if better {
                best = Some(i);
                bv = v;
            }
        }
        i = i + 1;
    }
    proof {
        assert forall|k: Seq<u8>| #![trigger m@.contains_key(k), has_prefix(k, version_prefix(key@))]
            m@.contains_key(k) && has_prefix(k, version_prefix(key@)) implies k.len() == version_prefix(key@).len() + 8 by {
            assert(crate::engine::selects(sel@, k));
            let j = choose|j: int| 0 <= j < entries@.len() && #[trigger] entries@[j].0@ == k;
        }
        assert forall|w: u64| is_visible(*st, w) && #[trigger] written_at(m@, key@, w) implies
            exists|j: int| 0 <= j < entries@.len() && version_of(key@, (#[trigger] entries@[j]).0@) == w by {
            lemma_version_key_prefix(key@, w);
            assert(crate::engine::selects(sel@, version_key(key@, w)));
            let j = choose|j: int| 0 <= j < entries@.len() && #[trigger] entries@[j].0@ == version_key(key@, w);
            lemma_be64(w, Seq::empty());
            assert(version_of(key@, entries@[j].0@) == w);
        }
        match best {
            None => {},
            Some(b) => {
                let e = entries@[b as int].0@;
                lemma_version_of(key@, e);
                assert(written_at(m@, key@, bv));
            },
        }
    }
    Ok(best)
}


/// Whether every scanned version of `key` is one that `st` sees.
fn check_conflict(
    st: &TransactionState,
    key: &[u8],
    prefix: &Vec<u8>,
    entries: &Vec<(Vec<u8>, Vec<u8>)>,
    sel: Ghost<Selector>,
    m: Ghost<Map<Seq<u8>, Seq<u8>>>,
) -> (r: Result<()>)
    requires
        prefix@ == version_prefix(key@),
        sel@ matches Selector::Prefix(sp) && sp@ == prefix@,
        lists_selected(entries@, m@, sel@),
    ensures
        r is Ok <==> versions_wf(m@, key@) && !conflicts(m@, *st, key@),
        r matches Err(e) ==> (e == Error::Encoding && !versions_wf(m@, key@)) || (e == Error::WriteConflict
            && conflicts(m@, *st, key@)),
{
    let mut i: usize = 0;
    while i < entries.len()
        invariant
            prefix@ == version_prefix(key@),
            sel@ matches Selector::Prefix(sp) && sp@ == prefix@,
            lists_selected(entries@, m@, sel@),
            i <= entries@.len(),
            forall|j: int| 0 <= j < i ==> (#[trigger] entries@[j]).0@.len() == prefix@.len() + 8
                && is_visible(*st, version_of(key@, entries@[j].0@)),
        decreases entries@.len() - i,
    {
        let k = &entries[i].0;
        if k.len() < 8 || k.len() - 8 != prefix.len() {
            proof {
                assert(m@.contains_key(k@) && has_prefix(k@, version_prefix(key@)));
            }
            return Err(Error::Encoding);
        }
        let v = read_be64(k.as_slice(), prefix.len());
        if !visible(st, v) {
            proof {
                lemma_version_of(key@, k@);
                assert(written_at(m@, key@, v));
            }
            return Err(Error::WriteConflict);
        }
        i = i + 1;
    }
    proof {
        assert forall|k: Seq<u8>| #![trigger m@.contains_key(k), has_prefix(k, version_prefix(key@))]
            m@.contains_key(k) && has_prefix(k, version_prefix(key@)) implies k.len() == version_prefix(key@).len() + 8 by {
            assert(crate::engine::selects(sel@, k));
            let j = choose|j: int| 0 <= j < entries@.len() && #[trigger] entries@[j].0@ == k;
        }
        if conflicts(m@, *st, key@) {
            let w = choose|w: u64| written_at(m@, key@, w) && !is_visible(*st, w);
            lemma_version_key_prefix(key@, w);
            assert(crate::engine::selects(sel@, version_key(key@, w)));
            let j = choose|j: int| 0 <= j < entries@.len() && #[trigger] entries@[j].0@ == version_key(key@, w);
            lemma_be64(w, Seq::empty());
            assert(version_of(key@, entries@[j].0@) == w);
        }
    }
    Ok(())
}

/// Reads the next version to allocate.
fn read_next_version<E: Engine>(engine: &mut E) -> (r: Result<u64>)
    requires
        old(engine).wf(),
    ensures
        final(engine).wf(),
        final(engine).infallible() == old(engine).infallible(),
        final(engine).contents() == old(engine).contents(),
        r matches Ok(v) ==> next_version_wf(old(engine).contents()) && v == next_version(old(engine).contents()),
        !next_version_wf(old(engine).contents()) ==> r is Err,
        r matches Err(e) ==> e is StorageIo || (e == Error::Encoding && !next_version_wf(old(engine).contents())),
        old(engine).infallible() && next_version_wf(old(engine).contents()) ==> r is Ok,
{
    let k = Key::NextVersion.encode();
    proof {
        assert(k@ =~= next_version_key());
    }
    match engine.get(k.as_slice()) {
        Err(e) => Err(e),
        Ok(None) => Ok(1),
        Ok(Some(b)) => {
            if b.len() != 8 {
                Err(Error::Encoding)
            } else {
                let v = read_be64(b.as_slice(), 0);
                assert(b@.subrange(0, 8) =~= b@);
                Ok(v)
            }
        },
    }
}

/// Lists the versions of the open transactions.
fn scan_active<E: Engine>(engine: &mut E) -> (r: Result<Vec<u64>>)
    requires
        old(engine).wf(),
    ensures
        final(engine).wf(),
        final(engine).infallible() == old(engine).infallible(),
        final(engine).contents() == old(engine).contents(),
        r matches Ok(a) ==> actives_wf(old(engine).contents()) && lists_active(a@, old(engine).contents()),
        !actives_wf(old(engine).contents()) ==> r is Err,
        r matches Err(e) ==> e is StorageIo || (e == Error::Encoding && !actives_wf(old(engine).contents())),
        old(engine).infallible() && actives_wf(old(engine).contents()) ==> r is Ok,
{
    let ghost m = engine.contents();
    let mut p: Vec<u8> = Vec::new();
    p.push(TAG_TXN_ACTIVE);
    assert(p@ =~= seq![TAG_TXN_ACTIVE]);
    let sel = Selector::Prefix(p);
    let entries = match engine.scan(sel) {
        Ok(e) => e,
        Err(e) => return Err(e),
    };
    active_versions(&entries, Ghost(sel), Ghost(m))
}

/// The versions named by scanned open-transaction keys.
fn active_versions(
    entries: &Vec<(Vec<u8>, Vec<u8>)>,
    sel: Ghost<Selector>,
    m: Ghost<Map<Seq<u8>, Seq<u8>>>,
) -> (r: Result<Vec<u64>>)
    requires
        sel@ matches Selector::Prefix(p) && p@ == seq![TAG_TXN_ACTIVE],
        lists_selected(entries@, m@, sel@),
    ensures
        r matches Ok(a) ==> actives_wf(m@) && lists_active(a@, m@),
        r is Err ==> !actives_wf(m@),
        r matches Err(e) ==> e == Error::Encoding,
{
    let mut a: Vec<u64> = Vec::new();
    let mut i: usize = 0;
    while i < entries.len()
        invariant
            sel@ matches Selector::Prefix(p) && p@ == seq![TAG_TXN_ACTIVE],
            lists_selected(entries@, m@, sel@),
            i <= entries@.len(),
            a@.len() == i,
            forall|j: int| 0 <= j < i ==> (#[trigger] entries@[j]).0@ == active_key(a@[j]),
        decreases entries@.len() - i,
    {
        let k = &entries[i].0;
        if k.len() != 9 {
            proof {
                assert(m@.contains_key(k@) && has_prefix(k@, seq![TAG_TXN_ACTIVE]));
            }
            return Err(Error::Encoding);
        }
        let v = read_be64(k.as_slice(), 1);
        proof {
            lemma_be64(v, k@.subrange(1, 9));
            assert(k@ =~= active_key(v));
        }
        a.push(v);
        i = i + 1;
    }
    proof {
        assert forall|k: Seq<u8>| #![trigger m@.contains_key(k), has_prefix(k, seq![TAG_TXN_ACTIVE])]
            m@.contains_key(k) && has_prefix(k, seq![TAG_TXN_ACTIVE]) implies k.len() == 9 by {
            assert(crate::engine::selects(sel@, k));
            let j = choose|j: int| 0 <= j < entries@.len() && #[trigger] entries@[j].0@ == k;
            lemma_be64(a@[j], Seq::empty());
        }
        assert forall|v: u64| a@.contains(v) <==> m@.contains_key(#[trigger] active_key(v)) by {
            lemma_be64(v, Seq::empty());
            if a@.contains(v) {
                let j = choose|j: int| 0 <= j < a@.len() && a@[j] == v;
                assert(entries@[j].0@ == active_key(v));
            }
            if m@.contains_key(active_key(v)) {
                assert(active_key(v).subrange(0, 1) =~= seq![TAG_TXN_ACTIVE]);
                assert(crate::engine::selects(sel@, active_key(v)));
                let j = choose|j: int| 0 <= j < entries@.len() && #[trigger] entries@[j].0@ == active_key(v);
                assert(active_key(a@[j]) == active_key(v));
                lemma_be64(a@[j], Seq::empty());
                assert(active_key(a@[j]).subrange(1, 9) =~= be64(a@[j]));
                assert(active_key(v).subrange(1, 9) =~= be64(v));
                assert(a@[j] == v);
            }
        }
    }
    Ok(a)
}

/// `ks` names every key that version `v` recorded writing.
pub open spec fn names_all_writes(ks: Seq<Vec<u8>>, m: Map<Seq<u8>, Seq<u8>>, v: u64) -> bool {
    forall|key: Seq<u8>| #[trigger] m.contains_key(write_key(v, key)) ==> exists|j: int| 0 <= j < ks.len() && ks[j]@ == key
}

/// The keys named by the scanned write records of version `v`.
fn written_keys(
    v: u64,
    entries: &Vec<(Vec<u8>, Vec<u8>)>,
    sel: Ghost<Selector>,
    m: Ghost<Map<Seq<u8>, Seq<u8>>>,
) -> (r: Result<Vec<Vec<u8>>>)
    requires
        sel@ matches Selector::Prefix(p) && p@ == write_prefix(v),
        lists_selected(entries@, m@, sel@),
    ensures
        r matches Ok(ks) ==> writes_wf(m@, v),
        r matches Ok(ks) ==> forall|j: int| 0 <= j < ks@.len() ==> m@.contains_key(#[trigger] write_key(v, ks@[j]@)),
        r matches Ok(ks) ==> names_all_writes(ks@, m@, v),
        r is Err ==> !writes_wf(m@, v),
        r matches Err(e) ==> e == Error::Encoding,
{
    proof {
        lemma_be64(v, Seq::empty());
    }
    let mut ks: Vec<Vec<u8>> = Vec::new();
    let mut i: usize = 0;
    while i < entries.len()
        invariant
            sel@ matches Selector::Prefix(p) && p@ == write_prefix(v),
            lists_selected(entries@, m@, sel@),
            be64(v).len() == 8,
            i <= entries@.len(),
            ks@.len() == i,
            forall|j: int| 0 <= j < i ==> (#[trigger] entries@[j]).0@ == write_key(v, ks@[j]@),
        decreases entries@.len() - i,
    {
        let k = &entries[i].0;
        let ghost kv = k@;
        proof {
            assert(crate::engine::selects(sel@, kv));
        }
        match read_escaped(k.as_slice(), 9) {
            Some((key, end)) => {
                if end != k.len() {
                    proof {
                        assert forall|x: Seq<u8>| kv != #[trigger] write_key(v, x) by {
                            if kv == write_key(v, x) {
                                assert(kv.subrange(9, kv.len() as int) =~= escaped(x) + Seq::<u8>::empty());
                                lemma_unescape_escaped(x, Seq::empty());
                            }
                        }
                        assert(m@.contains_key(kv) && has_prefix(kv, write_prefix(v)));
                    }
                    return Err(Error::Encoding);
                }
                proof {
                    let t = kv.subrange(9, kv.len() as int);
                    lemma_unescaped_is_escaped(t);
                    assert(t =~= escaped(key@));
                    assert(kv.subrange(0, 9) =~= write_prefix(v));
                    assert(kv =~= write_key(v, key@));
                }
                ks.push(key);
            },
            None => {
                proof {
                    assert forall|x: Seq<u8>| kv != #[trigger] write_key(v, x) by {
                        if kv == write_key(v, x) {
                            assert(kv.subrange(9, kv.len() as int) =~= escaped(x) + Seq::<u8>::empty());
                            lemma_unescape_escaped(x, Seq::empty());
                        }
                    }
                    assert(m@.contains_key(kv) && has_prefix(kv, write_prefix(v)));
                }
                return Err(Error::Encoding);
            },
        }
        i = i + 1;
    }
    proof {
        assert forall|k: Seq<u8>| #![trigger m@.contains_key(k), has_prefix(k, write_prefix(v))]
            m@.contains_key(k) && has_prefix(k, write_prefix(v)) implies exists|key: Seq<u8>| k == #[trigger] write_key(v, key) by {
            assert(crate::engine::selects(sel@, k));
            let j = choose|j: int| 0 <= j < entries@.len() && #[trigger] entries@[j].0@ == k;
            assert(k == write_key(v, ks@[j]@));
        }
        assert forall|j: int| 0 <= j < ks@.len() implies m@.contains_key(#[trigger] write_key(v, ks@[j]@)) by {
            assert(entries@[j].0@ == write_key(v, ks@[j]@));
        }
        assert forall|key: Seq<u8>| #[trigger] m@.contains_key(write_key(v, key)) implies exists|j: int| 0 <= j < ks@.len() && ks@[j]@ == key by {
            assert(write_key(v, key).subrange(0, 9) =~= write_prefix(v));
            assert(crate::engine::selects(sel@, write_key(v, key)));
            let j = choose|j: int| 0 <= j < entries@.len() && #[trigger] entries@[j].0@ == write_key(v, key);
            let kj = ks@[j]@;
            assert(write_key(v, kj) == write_key(v, key));
            assert(write_key(v, kj).subrange(9, write_key(v, kj).len() as int) =~= escaped(kj) + Seq::<u8>::empty());
            assert(write_key(v, key).subrange(9, write_key(v, key).len() as int) =~= escaped(key) + Seq::<u8>::empty());
            lemma_unescape_escaped(kj, Seq::empty());
            lemma_unescape_escaped(key, Seq::empty());
            assert(kj == key);
            assert(0 <= j < ks@.len() && ks@[j]@ == key);
        }
    }
    assert(names_all_writes(ks@, m@, v));
    Ok(ks)
}

/// `k` is the versioned key at version `v` of one of the first `n` keys.
pub open spec fn undone_among(ks: Seq<Vec<u8>>, n: int, v: u64, k: Seq<u8>) -> bool {
    exists|j: int| 0 <= j < n && k == #[trigger] version_key(ks[j]@, v)
}

/// The store with the values of version `v` of the first `n` keys removed.
pub open spec fn undone_upto(m: Map<Seq<u8>, Seq<u8>>, v: u64, ks: Seq<Vec<u8>>, n: int) -> Map<Seq<u8>, Seq<u8>> {
    Map::new(
        |k: Seq<u8>| m.contains_key(k) && !undone_among(ks, n, v, k),
        |k: Seq<u8>| m[k],
    )
}

/// Every stored key in the versioned namespace is a versioned key.
pub open spec fn versioned_wf(m: Map<Seq<u8>, Seq<u8>>) -> bool {
    forall|k: Seq<u8>|
        #![trigger m.contains_key(k), has_prefix(k, seq![TAG_VERSION])]
        m.contains_key(k) && has_prefix(k, seq![TAG_VERSION]) ==> exists|key: Seq<u8>, v: u64| k == #[trigger] version_key(key, v)
}

/// `out` lists, ascending by key, each key that `sel` selects and that `st`
/// reads a value for, with that value.
pub open spec fn lists_visible(
    out: Seq<(Vec<u8>, Vec<u8>)>,
    m: Map<Seq<u8>, Seq<u8>>,
    st: TransactionState,
    sel: Selector,
) -> bool {
    &&& keys_ascend(entry_keys(out))
    &&& forall|i: int| 0 <= i < out.len() ==> selects(sel, #[trigger] out[i].0@)
        && read_result(m, st, out[i].0@) == Some(Some(out[i].1@))
    &&& forall|key: Seq<u8>| selects(sel, key) && (#[trigger] read_result(m, st, key) matches Some(Some(_)))
        ==> exists|i: int| 0 <= i < out.len() && #[trigger] out[i].0@ == key
}

/// For each selected key, the highest version that `st` sees among the
/// scanned versioned entries, and the index of that entry.
fn latest_versions(
    st: &TransactionState,
    sel: &Selector,
    entries: &Vec<(Vec<u8>, Vec<u8>)>,
    all: Ghost<Selector>,
    m: Ghost<Map<Seq<u8>, Seq<u8>>>,
) -> (r: Result<ByteMap<(u64, usize)>>)
    requires
        all@ matches Selector::Prefix(p) && p@ == seq![TAG_VERSION],
        lists_selected(entries@, m@, all@),
    ensures
        r is Err ==> !versioned_wf(m@),
        r matches Err(e) ==> e == Error::Encoding,
        r matches Ok(best) ==> {
            &&& best.wf()
            &&& versioned_wf(m@)
            &&& forall|key: Seq<u8>| #[trigger] best@.contains_key(key) ==> {
                let (bv, bi) = best@[key];
                &&& selects(*sel, key) && bi < entries@.len() && is_visible(*st, bv)
                &&& entries@[bi as int].0@ == version_key(key, bv)
            }
            &&& forall|key: Seq<u8>, v: u64| selects(*sel, key) && is_visible(*st, v) && #[trigger] written_at(m@, key, v)
                ==> best@.contains_key(key) && v <= best@[key].0
        },
{
    let mut best: ByteMap<(u64, usize)> = ByteMap::new();
    let mut i: usize = 0;
    while i < entries.len()
        invariant
            all@ matches Selector::Prefix(p) && p@ == seq![TAG_VERSION],
            lists_selected(entries@, m@, all@),
            i <= entries@.len(),
            best.wf(),
            forall|j: int| 0 <= j < i ==> exists|key: Seq<u8>, v: u64| (#[trigger] entries@[j]).0@ == version_key(key, v),
            forall|key: Seq<u8>| #[trigger] best@.contains_key(key) ==> {
                let (bv, bi) = best@[key];
                &&& selects(*sel, key) && bi < i && is_visible(*st, bv)
                &&& entries@[bi as int].0@ == version_key(key, bv)
            },
            forall|j: int, key: Seq<u8>, v: u64| 0 <= j < i && (#[trigger] entries@[j]).0@ == #[trigger] version_key(key, v)
                && selects(*sel, key) && is_visible(*st, v) ==> best@.contains_key(key) && v <= best@[key].0,
        decreases entries@.len() - i,
    {
        let ek = &entries[i].0;
        let (k, v) = match Key::decode(ek.as_slice()) {
            Ok(Key::Version(k, v)) => (k, v),
            Ok(other) => {
                proof {
                    assert(crate::engine::selects(all@, ek@));
                    assert(ek@.subrange(0, 1)[0] == TAG_VERSION);
                    crate::keys::lemma_encoded_tag(other);
                }
                return Err(Error::Encoding);
            },
            Err(_) => {
                proof {
                    assert(crate::engine::selects(all@, ek@));
                }
                return Err(Error::Encoding);
            },
        };
        proof {
            assert(ek@ =~= version_key(k@, v));
            assert forall|key: Seq<u8>, w: u64| ek@ == #[trigger] version_key(key, w) implies key == k@ && w == v by {
                lemma_version_key_injective(key, w, k@, v);
            }
        }
        if selector_admits(sel, k.as_slice()) && visible(st, v) {
            let replace = match best.get(k.as_slice()) {
                Some(bvi) => bvi.0 < v,
                None => true,
            };
            if replace {
                let ghost kv = k@;
                best.insert(k, (v, i));
                proof {
                    assert(best@.contains_key(kv));
                }
            }
        }
        i = i + 1;
    }
    proof {
        assert forall|k: Seq<u8>| #![trigger m@.contains_key(k), has_prefix(k, seq![TAG_VERSION])]
            m@.contains_key(k) && has_prefix(k, seq![TAG_VERSION]) implies exists|key: Seq<u8>, v: u64| k == #[trigger] version_key(key, v) by {
            assert(crate::engine::selects(all@, k));
            let j = choose|j: int| 0 <= j < entries@.len() && #[trigger] entries@[j].0@ == k;
        }
        assert forall|key: Seq<u8>, v: u64| selects(*sel, key) && is_visible(*st, v) && #[trigger] written_at(m@, key, v)
            implies best@.contains_key(key) && v <= best@[key].0 by {
            lemma_version_key_prefix(key, v);
            assert(version_key(key, v).subrange(0, 1) =~= seq![TAG_VERSION]);
            assert(crate::engine::selects(all@, version_key(key, v)));
            let j = choose|j: int| 0 <= j < entries@.len() && #[trigger] entries@[j].0@ == version_key(key, v);
        }
    }
    Ok(best)
}

/// The values that the chosen entries hold, in a store keyed like `best`;
/// deletions are left out.
fn visible_values(best: &ByteMap<(u64, usize)>, entries: &Vec<(Vec<u8>, Vec<u8>)>) -> (r: Result<Memory>)
    requires
        best.wf(),
        forall|key: Seq<u8>| #[trigger] best@.contains_key(key) ==> best@[key].1 < entries@.len(),
    ensures
        r matches Ok(vis) ==> {
            &&& vis.wf()
            &&& forall|key: Seq<u8>| #[trigger] best@.contains_key(key) ==> cell_value(entries@[best@[key].1 as int].1@) is Some
            &&& forall|key: Seq<u8>| #[trigger] vis.contents().contains_key(key) <==> (best@.contains_key(key)
                && cell_value(entries@[best@[key].1 as int].1@) matches Some(Some(_)))
            &&& forall|key: Seq<u8>| #[trigger] vis.contents().contains_key(key) ==> cell_value(entries@[best@[key].1 as int].1@)
                == Some(Some(vis.contents()[key]))
        },
        r is Err ==> exists|key: Seq<u8>| #[trigger] best@.contains_key(key) && cell_value(entries@[best@[key].1 as int].1@) is None,
        r matches Err(e) ==> e == Error::Encoding,
{
    let ghost ok = best.ordered_keys();
    proof {
        best.lemma_ordered_keys();
    }
    let mut vis = Memory::new();
    let n = best.len();
    let mut j: usize = 0;
    while j < n
        invariant
            best.wf(),
            ok == best.ordered_keys(),
            n == ok.len(),
            keys_ascend(ok),
            forall|i: int| 0 <= i < ok.len() ==> best@.contains_key(#[trigger] ok[i]),
            forall|key: Seq<u8>| #[trigger] best@.contains_key(key) ==> best@[key].1 < entries@.len(),
            j <= n,
            vis.wf(),
            forall|i: int| 0 <= i < j ==> cell_value(entries@[best@[#[trigger] ok[i]].1 as int].1@) is Some,
            forall|key: Seq<u8>| #[trigger] vis.contents().contains_key(key) <==> (exists|i: int| 0 <= i < j && #[trigger] ok[i] == key)
                && cell_value(entries@[best@[key].1 as int].1@) matches Some(Some(_)),
            forall|key: Seq<u8>| #[trigger] vis.contents().contains_key(key) ==> cell_value(entries@[best@[key].1 as int].1@)
                == Some(Some(vis.contents()[key])),
        decreases n - j,
    {
        let key = best.key_at(j);
        let idx = best.value_at(j).1;
        let ghost kv = key@;
        match decode_cell(&entries[idx].1) {
            None => {
                proof {
                    assert(best@.contains_key(kv));
                }
                return Err(Error::Encoding);
            },
            Some(None) => {
                proof {
                    assert forall|k2: Seq<u8>| #[trigger] vis.contents().contains_key(k2) <==> (exists|i: int| 0 <= i < j + 1 && #[trigger] ok[i] == k2)
                        && cell_value(entries@[best@[k2].1 as int].1@) matches Some(Some(_)) by {
                        if exists|i: int| 0 <= i < j + 1 && #[trigger] ok[i] == k2 {
                            let i = choose|i: int| 0 <= i < j + 1 && #[trigger] ok[i] == k2;
                            if i < j {
                                assert(exists|i2: int| 0 <= i2 < j && #[trigger] ok[i2] == k2);
                            }
                        }
                    }
                }
            },
            Some(Some(val)) => {
                let ghost before = vis.contents();
                let kc = copy_bytes(key);
                match vis.set(kc.as_slice(), val) {
                    Ok(()) => {},
                    Err(e) => return Err(e),
                }
                proof {
                    assert forall|k2: Seq<u8>| #[trigger] vis.contents().contains_key(k2) <==> (exists|i: int| 0 <= i < j + 1 && #[trigger] ok[i] == k2)
                        && cell_value(entries@[best@[k2].1 as int].1@) matches Some(Some(_)) by {
                        if exists|i: int| 0 <= i < j + 1 && #[trigger] ok[i] == k2 {
                            let i = choose|i: int| 0 <= i < j + 1 && #[trigger] ok[i] == k2;
                            if i < j {
                                assert(exists|i2: int| 0 <= i2 < j && #[trigger] ok[i2] == k2);
                            }
                        }
                        if k2 == kv {
                            assert(0 <= j < j + 1 && ok[j as int] == k2);
                        } else if before.contains_key(k2) {
                            let i = choose|i: int| 0 <= i < j && #[trigger] ok[i] == k2;
                            assert(0 <= i < j + 1 && ok[i] == k2);
                        }
                    }
                }
            },
        }
        j = j + 1;
    }
    proof {
        assert forall|key: Seq<u8>| #[trigger] best@.contains_key(key) implies cell_value(entries@[best@[key].1 as int].1@) is Some by {
            let i = choose|i: int| 0 <= i < ok.len() && #[trigger] ok[i] == key;
        }
        assert forall|key: Seq<u8>| #[trigger] vis.contents().contains_key(key) <==> (best@.contains_key(key)
            && cell_value(entries@[best@[key].1 as int].1@) matches Some(Some(_))) by {
            if best@.contains_key(key) {
                let i = choose|i: int| 0 <= i < ok.len() && #[trigger] ok[i] == key;
            }
        }
    }
    Ok(vis)
}

/// The latest fully allocated version: one below the next to allocate.
pub open spec fn latest_version(m: Map<Seq<u8>, Seq<u8>>) -> u64 {
    if next_version(m) == 0 {
        0
    } else {
        (next_version(m) - 1) as u64
    }
}

/// A transaction handle: the state of one transaction. Its operations act on
/// the store they are given.
pub struct Transaction {
    st: TransactionState,
}

impl Transaction {
    pub closed spec fn state_spec(&self) -> TransactionState {
        self.st
    }

    /// Begins a read-write transaction: allocates the next version, records
    /// the versions open now, and marks the new one open.
    pub fn begin<E: Engine>(engine: &mut E) -> (r: Result<Transaction>)
        requires
            old(engine).wf(),
        ensures
            final(engine).wf(),
            final(engine).infallible() == old(engine).infallible(),
            r matches Ok(t) ==> {
                let m = old(engine).contents();
                &&& next_version_wf(m) && actives_wf(m)
                &&& next_version(m) < u64::MAX
                &&& t.state_spec().version == next_version(m)
                &&& !t.state_spec().read_only
                &&& lists_active(t.state_spec().active@, m)
                &&& final(engine).contents() == after_begin(m)
            },
            !next_version_wf(old(engine).contents()) || !actives_wf(old(engine).contents()) ==> r is Err,
            next_version_wf(old(engine).contents()) && next_version(old(engine).contents()) == u64::MAX ==> r is Err
                && final(engine).contents() == old(engine).contents(),
            r matches Err(e) ==> e is StorageIo
                || (e is Encoding && (!next_version_wf(old(engine).contents()) || !actives_wf(old(engine).contents())))
                || (e is VersionsExhausted && next_version_wf(old(engine).contents()) && next_version(old(engine).contents()) == u64::MAX),
            old(engine).infallible() && next_version_wf(old(engine).contents()) && actives_wf(old(engine).contents())
                && next_version(old(engine).contents()) < u64::MAX ==> r is Ok,
            r is Ok && store_wf(old(engine).contents()) ==> store_wf(final(engine).contents()),
            r is Err ==> final(engine).contents() == old(engine).contents() || final(engine).contents()
                == old(engine).contents().insert(next_version_key(), be64((next_version(old(engine).contents()) + 1) as u64)),
    {
        let ghost m = engine.contents();
        let next = match read_next_version(engine) {
            Ok(v) => v,
            Err(e) => return Err(e),
        };
        if next == u64::MAX {
            return Err(Error::VersionsExhausted);
        }
        let nk = Key::NextVersion.encode();
        let mut nv: Vec<u8> = Vec::new();
        push_be64(&mut nv, next + 1);
        assert(nk@ =~= next_version_key());
        match engine.set(nk.as_slice(), nv) {
            Ok(()) => {},
            Err(e) => return Err(e),
        }
        let ghost m1 = engine.contents();
        proof {
            assert forall|k: Seq<u8>| has_prefix(k, seq![TAG_TXN_ACTIVE]) implies k != next_version_key() by {
                if k == next_version_key() {
                    assert(k.subrange(0, 1)[0] == TAG_TXN_ACTIVE);
                }
            }
            assert forall|v: u64| #[trigger] active_key(v) != next_version_key() by {
                assert(active_key(v)[0] == TAG_TXN_ACTIVE);
            }
            assert(actives_wf(m1) <==> actives_wf(m)) by {
                if actives_wf(m) {
                    assert forall|k: Seq<u8>| #![trigger m1.contains_key(k), has_prefix(k, seq![TAG_TXN_ACTIVE])]
                        m1.contains_key(k) && has_prefix(k, seq![TAG_TXN_ACTIVE]) implies k.len() == 9 by {
                        assert(m.contains_key(k));
                    }
                }
                if actives_wf(m1) {
                    assert forall|k: Seq<u8>| #![trigger m.contains_key(k), has_prefix(k, seq![TAG_TXN_ACTIVE])]
                        m.contains_key(k) && has_prefix(k, seq![TAG_TXN_ACTIVE]) implies k.len() == 9 by {
                        assert(m1.contains_key(k));
                    }
                }
            }
        }
        let active = match scan_active(engine) {
            Ok(a) => a,
            Err(e) => {
                return Err(e);
            },
        };
        proof {
            assert forall|v: u64| active@.contains(v) <==> m.contains_key(#[trigger] active_key(v)) by {
                assert(active_key(v) != next_version_key());
                assert(m1.contains_key(active_key(v)) == m.contains_key(active_key(v)));
            }
        }
        let ak = Key::TxnActive(next).encode();
        let empty: Vec<u8> = Vec::new();
        assert(empty@ =~= Seq::<u8>::empty());
        match engine.set(ak.as_slice(), empty) {
            Ok(()) => {},
            Err(e) => return Err(e),
        }
        proof {
            if store_wf(m) {
                lemma_begin_keeps_store_wf(m);
            }
        }
        Ok(Transaction { st: TransactionState { version: next, read_only: false, active } })
    }

    /// Begins a read-only transaction: at the latest allocated version with
    /// the versions open now, or, given `as_of`, at that version and seeing
    /// every version up to it.
    pub fn begin_read_only<E: Engine>(engine: &mut E, as_of: Option<u64>) -> (r: Result<Transaction>)
        requires
            old(engine).wf(),
        ensures
            final(engine).wf(),
            final(engine).infallible() == old(engine).infallible(),
            final(engine).contents() == old(engine).contents(),
            r matches Ok(t) ==> t.state_spec().read_only && match as_of {
                Some(v) => t.state_spec().version == v && t.state_spec().active@ == Seq::<u64>::empty(),
                None => {
                    let m = old(engine).contents();
                    &&& next_version_wf(m) && actives_wf(m)
                    &&& t.state_spec().version == latest_version(m)
                    &&& lists_active(t.state_spec().active@, m)
                },
            },
            as_of is Some ==> r is Ok,
            !next_version_wf(old(engine).contents()) || !actives_wf(old(engine).contents()) ==> as_of is Some || r is Err,
            r matches Err(e) ==> e is StorageIo
                || (e is Encoding && (!next_version_wf(old(engine).contents()) || !actives_wf(old(engine).contents()))),
            old(engine).infallible() && next_version_wf(old(engine).contents()) && actives_wf(old(engine).contents()) ==> r is Ok,
    {
        match as_of {
            Some(v) => {
                let active: Vec<u64> = Vec::new();
                Ok(Transaction { st: TransactionState { version: v, read_only: true, active } })
            },
            None => {
                let next = match read_next_version(engine) {
                    Ok(v) => v,
                    Err(e) => return Err(e),
                };
                let active = match scan_active(engine) {
                    Ok(a) => a,
                    Err(e) => return Err(e),
                };
                let version = if next == 0 { 0 } else { next - 1 };
                Ok(Transaction { st: TransactionState { version, read_only: true, active } })
            },
        }
    }

    /// Continues a transaction from its state, keeping its version and
    /// snapshot.
    pub fn resume(state: TransactionState) -> (r: Transaction)
        ensures
            r.state_spec() == state,
    {
        Transaction { st: state }
    }

    /// The transaction's state, to store or send and resume later.
    pub fn state(&self) -> (r: &TransactionState)
        ensures
            *r == self.state_spec(),
    {
        &self.st
    }

    pub fn version(&self) -> (r: u64)
        ensures
            r == self.state_spec().version,
    {
        self.st.version
    }

    pub fn is_read_only(&self) -> (r: bool)
        ensures
            r == self.state_spec().read_only,
    {
        self.st.read_only
    }

    /// Reads `key` as this transaction sees it.
    pub fn get<E: Engine>(&self, engine: &mut E, key: &[u8]) -> (r: Result<Option<Vec<u8>>>)
        requires
            old(engine).wf(),
        ensures
            final(engine).wf(),
            final(engine).infallible() == old(engine).infallible(),
            final(engine).contents() == old(engine).contents(),
            r matches Ok(o) ==> versions_wf(old(engine).contents(), key@)
                && read_result(old(engine).contents(), self.state_spec(), key@) == Some(opt_view(o)),
            !versions_wf(old(engine).contents(), key@) || read_result(old(engine).contents(), self.state_spec(), key@) is None
                ==> r is Err,
            r matches Err(e) ==> e is StorageIo || (e is Encoding && (!versions_wf(old(engine).contents(), key@)
                || read_result(old(engine).contents(), self.state_spec(), key@) is None)),
            old(engine).infallible() && versions_wf(old(engine).contents(), key@)
                && read_result(old(engine).contents(), self.state_spec(), key@) is Some ==> r is Ok,
    {
        let ghost m = engine.contents();
        let prefix = version_prefix_of(key);
        let sel = Selector::Prefix(copy_bytes(&prefix));
        let ghost gsel = sel;
        let entries = match engine.scan(sel) {
            Ok(e) => e,
            Err(e) => return Err(e),
        };
        match latest_of(&self.st, key, &prefix, &entries, Ghost(gsel), Ghost(m)) {
            Err(e) => Err(e),
            Ok(None) => Ok(None),
            Ok(Some(i)) => {
                let ghost v = version_of(key@, entries@[i as int].0@);
                proof {
                    let c = choose|w: u64| latest_visible(m, self.st, key@, w);
                    assert(c == v);
                }
                match decode_cell(&entries[i].1) {
                    Some(o) => Ok(o),
                    None => Err(Error::Encoding),
                }
            },
        }
    }

    /// The keys that `sel` selects and that this transaction reads a value
    /// for, with those values, ascending by key.
    pub fn scan<E: Engine>(&self, engine: &mut E, sel: Selector) -> (r: Result<Vec<(Vec<u8>, Vec<u8>)>>)
        requires
            old(engine).wf(),
        ensures
            final(engine).wf(),
            final(engine).infallible() == old(engine).infallible(),
            final(engine).contents() == old(engine).contents(),
            r matches Ok(out) ==> versioned_wf(old(engine).contents()) && lists_visible(out@, old(engine).contents(), self.state_spec(), sel),
            !versioned_wf(old(engine).contents()) ==> r is Err,
            (exists|key: Seq<u8>| selects(sel, key) && #[trigger] read_result(old(engine).contents(), self.state_spec(), key) is None)
                ==> r is Err,
            r matches Err(e) ==> e is StorageIo || (e is Encoding && (!versioned_wf(old(engine).contents())
                || exists|key: Seq<u8>| selects(sel, key) && #[trigger] read_result(old(engine).contents(), self.state_spec(), key) is None)),
            old(engine).infallible() && versioned_wf(old(engine).contents())
                && (forall|key: Seq<u8>| selects(sel, key) ==> #[trigger] read_result(old(engine).contents(), self.state_spec(), key) is Some)
                ==> r is Ok,
    {
        let ghost m = engine.contents();
        let mut p: Vec<u8> = Vec::new();
        p.push(TAG_VERSION);
        assert(p@ =~= seq![TAG_VERSION]);
        let all = Selector::Prefix(p);
        let ghost gall = all;
        let entries = match engine.scan(all) {
            Ok(e) => e,
            Err(e) => return Err(e),
        };
        let best = match latest_versions(&self.st, &sel, &entries, Ghost(gall), Ghost(m)) {
            Ok(b) => b,
            Err(e) => return Err(e),
        };
        let ghost st = self.st;
        proof {
            assert forall|key: Seq<u8>| #[trigger] best@.contains_key(key) implies latest_visible(m, st, key, best@[key].0)
                && read_result(m, st, key) == cell_value(entries@[best@[key].1 as int].1@) by {
                let (bv, bi) = best@[key];
                assert(m.contains_key(entries@[bi as int].0@));
                assert(latest_visible(m, st, key, bv));
                let c = choose|w: u64| latest_visible(m, st, key, w);
                assert(c == bv);
            }
            assert forall|key: Seq<u8>| selects(sel, key) && !best@.contains_key(key) implies #[trigger] read_result(m, st, key) == Some(None::<Seq<u8>>) by {
                if exists|w: u64| latest_visible(m, st, key, w) {
                    let w = choose|w: u64| latest_visible(m, st, key, w);
                    assert(written_at(m, key, w));
                }
            }
        }
        let mut vis = match visible_values(&best, &entries) {
            Ok(v) => v,
            Err(e) => return Err(e),
        };
        let ghost vc = vis.contents();
        let empty: Vec<u8> = Vec::new();
        let every = Selector::Prefix(empty);
        let ghost gevery = every;
        let out = match vis.scan(every) {
            Ok(o) => o,
            Err(e) => return Err(e),
        };
        proof {
            assert forall|i: int| 0 <= i < out@.len() implies selects(sel, #[trigger] out@[i].0@)
                && read_result(m, st, out@[i].0@) == Some(Some(out@[i].1@)) by {
                let k = out@[i].0@;
                assert(vc.contains_key(k));
            }
            assert forall|key: Seq<u8>| selects(sel, key) && (#[trigger] read_result(m, st, key) matches Some(Some(_)))
                implies exists|i: int| 0 <= i < out@.len() && #[trigger] out@[i].0@ == key by {
                assert(best@.contains_key(key));
                assert(vc.contains_key(key));
                assert(key.subrange(0, 0) =~= gevery->Prefix_0@);
                assert(selects(gevery, key));
            }
        }
        Ok(out)
    }

    /// Writes `value` to `key`, or deletes it where `value` is `None`: fails
    /// on a read-only transaction, and where a version of the key that this
    /// transaction does not see exists.
    pub fn write<E: Engine>(&self, engine: &mut E, key: &[u8], value: Option<Vec<u8>>) -> (r: Result<()>)
        requires
            old(engine).wf(),
        ensures
            final(engine).wf(),
            final(engine).infallible() == old(engine).infallible(),
            self.state_spec().read_only ==> r == Err::<(), Error>(Error::ReadOnlyViolation) && final(engine).contents() == old(engine).contents(),
            r is Ok ==> {
                let m = old(engine).contents();
                &&& !self.state_spec().read_only
                &&& versions_wf(m, key@)
                &&& !conflicts(m, self.state_spec(), key@)
                &&& final(engine).contents() == after_write(m, self.state_spec(), key@, opt_view(value))
            },
            !self.state_spec().read_only && (!versions_wf(old(engine).contents(), key@) || conflicts(old(engine).contents(), self.state_spec(), key@))
                ==> r is Err && final(engine).contents() == old(engine).contents(),
            r matches Err(e) ==> e is StorageIo || (e is ReadOnlyViolation && self.state_spec().read_only)
                || (e is Encoding && !versions_wf(old(engine).contents(), key@))
                || (e is WriteConflict && conflicts(old(engine).contents(), self.state_spec(), key@)),
            old(engine).infallible() && !self.state_spec().read_only && versions_wf(old(engine).contents(), key@)
                ==> if conflicts(old(engine).contents(), self.state_spec(), key@) {
                    r == Err::<(), Error>(Error::WriteConflict)
                } else {
                    r is Ok
                },
            r is Ok && store_wf(old(engine).contents()) ==> store_wf(final(engine).contents()),
            r is Err ==> final(engine).contents() == old(engine).contents() || final(engine).contents()
                == old(engine).contents().insert(write_key(self.state_spec().version, key@), Seq::empty()),
    {
        if self.st.read_only {
            return Err(Error::ReadOnlyViolation);
        }
        let ghost m = engine.contents();
        let prefix = version_prefix_of(key);
        let sel = Selector::Prefix(copy_bytes(&prefix));
        let ghost gsel = sel;
        let entries = match engine.scan(sel) {
            Ok(e) => e,
            Err(e) => return Err(e),
        };
        match check_conflict(&self.st, key, &prefix, &entries, Ghost(gsel), Ghost(m)) {
            Ok(()) => {},
            Err(e) => return Err(e),
        }
        let k = crate::bytes::copy_range(key, 0, key.len());
        assert(key@.subrange(0, key@.len() as int) =~= key@);
        let wk = Key::TxnWrite(self.st.version, k).encode();
        let empty: Vec<u8> = Vec::new();
        assert(empty@ =~= Seq::<u8>::empty());
        match engine.set(wk.as_slice(), empty) {
            Ok(()) => {},
            Err(e) => return Err(e),
        }
        let k2 = crate::bytes::copy_range(key, 0, key.len());
        let vk = Key::Version(k2, self.st.version).encode();
        assert(vk@ =~= version_key(key@, self.st.version));
        let c = encode_cell(&value);
        match engine.set(vk.as_slice(), c) {
            Ok(()) => {},
            Err(e) => return Err(e),
        }
        proof {
            if store_wf(m) {
                lemma_write_keeps_store_wf(m, self.st, key@, opt_view(value));
            }
        }
        Ok(())
    }

    /// Writes `value` to `key`.
    pub fn set<E: Engine>(&self, engine: &mut E, key: &[u8], value: Vec<u8>) -> (r: Result<()>)
        requires
            old(engine).wf(),
        ensures
            final(engine).wf(),
            final(engine).infallible() == old(engine).infallible(),
            self.state_spec().read_only ==> r == Err::<(), Error>(Error::ReadOnlyViolation) && final(engine).contents() == old(engine).contents(),
            r is Ok ==> {
                let m = old(engine).contents();
                &&& !self.state_spec().read_only
                &&& versions_wf(m, key@)
                &&& !conflicts(m, self.state_spec(), key@)
                &&& final(engine).contents() == after_write(m, self.state_spec(), key@, Some(value@))
            },
            !self.state_spec().read_only && (!versions_wf(old(engine).contents(), key@) || conflicts(old(engine).contents(), self.state_spec(), key@))
                ==> r is Err && final(engine).contents() == old(engine).contents(),
            r matches Err(e) ==> e is StorageIo || (e is ReadOnlyViolation && self.state_spec().read_only)
                || (e is Encoding && !versions_wf(old(engine).contents(), key@))
                || (e is WriteConflict && conflicts(old(engine).contents(), self.state_spec(), key@)),
            old(engine).infallible() && !self.state_spec().read_only && versions_wf(old(engine).contents(), key@)
                ==> if conflicts(old(engine).contents(), self.state_spec(), key@) {
                    r == Err::<(), Error>(Error::WriteConflict)
                } else {
                    r is Ok
                },
            r is Ok && store_wf(old(engine).contents()) ==> store_wf(final(engine).contents()),
            r is Err ==> final(engine).contents() == old(engine).contents() || final(engine).contents()
                == old(engine).contents().insert(write_key(self.state_spec().version, key@), Seq::empty()),
    {
        self.write(engine, key, Some(value))
    }

    /// Deletes `key`.
    pub fn delete<E: Engine>(&self, engine: &mut E, key: &[u8]) -> (r: Result<()>)
        requires
            old(engine).wf(),
        ensures
            final(engine).wf(),
            final(engine).infallible() == old(engine).infallible(),
            self.state_spec().read_only ==> r == Err::<(), Error>(Error::ReadOnlyViolation) && final(engine).contents() == old(engine).contents(),
            r is Ok ==> {
                let m = old(engine).contents();
                &&& !self.state_spec().read_only
                &&& versions_wf(m, key@)
                &&& !conflicts(m, self.state_spec(), key@)
                &&& final(engine).contents() == after_write(m, self.state_spec(), key@, None)
            },
            !self.state_spec().read_only && (!versions_wf(old(engine).contents(), key@) || conflicts(old(engine).contents(), self.state_spec(), key@))
                ==> r is Err && final(engine).contents() == old(engine).contents(),
            r matches Err(e) ==> e is StorageIo || (e is ReadOnlyViolation && self.state_spec().read_only)
                || (e is Encoding && !versions_wf(old(engine).contents(), key@))
                || (e is WriteConflict && conflicts(old(engine).contents(), self.state_spec(), key@)),
            old(engine).infallible() && !self.state_spec().read_only && versions_wf(old(engine).contents(), key@)
                ==> if conflicts(old(engine).contents(), self.state_spec(), key@) {
                    r == Err::<(), Error>(Error::WriteConflict)
                } else {
                    r is Ok
                },
            r is Ok && store_wf(old(engine).contents()) ==> store_wf(final(engine).contents()),
            r is Err ==> final(engine).contents() == old(engine).contents() || final(engine).contents()
                == old(engine).contents().insert(write_key(self.state_spec().version, key@), Seq::empty()),
    {
        self.write(engine, key, None)
    }

    /// Commits: the transaction's version is no longer open; what it wrote
    /// stays. A read-only transaction changes nothing.
    pub fn commit<E: Engine>(self, engine: &mut E) -> (r: Result<()>)
        requires
            old(engine).wf(),
        ensures
            final(engine).wf(),
            final(engine).infallible() == old(engine).infallible(),
            r is Ok ==> final(engine).contents() == after_commit(old(engine).contents(), self.state_spec()),
            r is Err ==> final(engine).contents() == old(engine).contents(),
            r matches Err(e) ==> e is StorageIo,
            self.state_spec().read_only || old(engine).infallible() ==> r is Ok,
            r is Ok && store_wf(old(engine).contents()) ==> store_wf(final(engine).contents()),
    {
        if self.st.read_only {
            return Ok(());
        }
        let ak = Key::TxnActive(self.st.version).encode();
        let ghost m = engine.contents();
        proof {
            if store_wf(m) {
                lemma_commit_keeps_store_wf(m, self.st);
            }
        }
        engine.delete(ak.as_slice())
    }

    /// Rolls back: removes the value this version wrote to every key it
    /// wrote, then marks the version no longer open. A read-only transaction
    /// changes nothing.
    pub fn rollback<E: Engine>(self, engine: &mut E) -> (r: Result<()>)
        requires
            old(engine).wf(),
        ensures
            final(engine).wf(),
            final(engine).infallible() == old(engine).infallible(),
            r is Ok ==> if self.state_spec().read_only {
                final(engine).contents() == old(engine).contents()
            } else {
                &&& writes_wf(old(engine).contents(), self.state_spec().version)
                &&& final(engine).contents() == after_rollback(old(engine).contents(), self.state_spec().version)
            },
            !self.state_spec().read_only && !writes_wf(old(engine).contents(), self.state_spec().version) ==> r is Err,
            r matches Err(e) ==> e is StorageIo || (e is Encoding && !writes_wf(old(engine).contents(), self.state_spec().version)),
            self.state_spec().read_only ==> r is Ok,
            old(engine).infallible() && writes_wf(old(engine).contents(), self.state_spec().version) ==> r is Ok,
            r is Ok && store_wf(old(engine).contents()) ==> store_wf(final(engine).contents()),
            r is Err ==> partly_rolled_back(old(engine).contents(), final(engine).contents(), self.state_spec().version),
    {
        if self.st.read_only {
            return Ok(());
        }
        let v = self.st.version;
        let ghost m = engine.contents();
        let mut p: Vec<u8> = Vec::new();
        p.push(TAG_TXN_WRITE);
        push_be64(&mut p, v);
        assert(p@ =~= write_prefix(v));
        let sel = Selector::Prefix(p);
        let ghost gsel = sel;
        let entries = match engine.scan(sel) {
            Ok(e) => e,
            Err(e) => return Err(e),
        };
        let ks = match written_keys(v, &entries, Ghost(gsel), Ghost(m)) {
            Ok(ks) => ks,
            Err(e) => return Err(e),
        };
        let mut i: usize = 0;
        assert(undone_upto(m, v, ks@, 0) =~= m);
        while i < ks.len()
            invariant
                engine.wf(),
                engine.infallible() == old(engine).infallible(),
                !self.state_spec().read_only,
                engine.contents() == undone_upto(m, v, ks@, i as int),
                partly_rolled_back(m, engine.contents(), v),
                m == old(engine).contents(),
                v == self.state_spec().version,
                forall|j: int| 0 <= j < ks@.len() ==> m.contains_key(#[trigger] write_key(v, ks@[j]@)),
                i <= ks@.len(),
            decreases ks@.len() - i,
        {
            let k = copy_bytes(&ks[i]);
            let vk = Key::Version(k, v).encode();
            assert(vk@ =~= version_key(ks@[i as int]@, v));
            match engine.delete(vk.as_slice()) {
                Ok(()) => {},
                Err(e) => return Err(e),
            }
            proof {
                assert(engine.contents() =~= undone_upto(m, v, ks@, i + 1)) by {
                    assert forall|k: Seq<u8>| #[trigger] undone_among(ks@, i + 1, v, k) <==>
                        (undone_among(ks@, i as int, v, k) || k == version_key(ks@[i as int]@, v)) by {
                        if exists|j: int| 0 <= j < i + 1 && k == #[trigger] version_key(ks@[j]@, v) {
                            let j = choose|j: int| 0 <= j < i + 1 && k == #[trigger] version_key(ks@[j]@, v);
                            if j < i {
                                assert(0 <= j < i && k == version_key(ks@[j]@, v));
                            }
                        }
                        if k == version_key(ks@[i as int]@, v) {
                            assert(0 <= i < i + 1 && k == version_key(ks@[i as int]@, v));
                        }
                    }
                }
                assert(m.contains_key(write_key(v, ks@[i as int]@)));
                assert(undone_by(m, v, version_key(ks@[i as int]@, v)));
            }
            i = i + 1;
        }
        let ak = Key::TxnActive(v).encode();
        match engine.delete(ak.as_slice()) {
            Ok(()) => {},
            Err(e) => return Err(e),
        }
        proof {
            let n = ks@.len() as int;
            assert forall|k: Seq<u8>| #[trigger] undone_among(ks@, n, v, k) <==> undone_by(m, v, k) by {
                if exists|j: int| 0 <= j < n && k == #[trigger] version_key(ks@[j]@, v) {
                    let j = choose|j: int| 0 <= j < n && k == #[trigger] version_key(ks@[j]@, v);
                    assert(m.contains_key(write_key(v, ks@[j]@)));
                }
                if undone_by(m, v, k) {
                    let key = choose|key: Seq<u8>| #[trigger] m.contains_key(write_key(v, key)) && k == version_key(key, v);
                    let j = choose|j: int| 0 <= j < ks@.len() && ks@[j]@ == key;
                    assert(k == version_key(ks@[j]@, v));
                }
            }
            assert(engine.contents() =~= after_rollback(m, v));
        }
        proof {
            if store_wf(m) {
                lemma_rollback_keeps_store_wf(m, v);
            }
        }
        Ok(())
    }
}

/// Distinct namespaces never share a key.
proof fn lemma_namespaces(key: Seq<u8>, v: u64, w: u64, key2: Seq<u8>)
    ensures
        version_key(key, v) != active_key(w),
        version_key(key, v) != write_key(w, key2),
        version_key(key, v) != next_version_key(),
{
    assert(version_key(key, v)[0] == TAG_VERSION);
    assert(active_key(w)[0] == TAG_TXN_ACTIVE);
    assert(write_key(w, key2)[0] == TAG_TXN_WRITE);
    assert(next_version_key()[0] == crate::keys::TAG_NEXT_VERSION);
}

/// A versioned key names one key at one version.
pub proof fn lemma_version_key_injective(a: Seq<u8>, v: u64, b: Seq<u8>, w: u64)
    requires
        version_key(a, v) == version_key(b, w),
    ensures
        a == b,
        v == w,
{
    let ka = version_key(a, v);
    let kb = version_key(b, w);
    assert(ka.drop_first() =~= escaped(a) + be64(v));
    assert(kb.drop_first() =~= escaped(b) + be64(w));
    lemma_unescape_escaped(a, be64(v));
    lemma_unescape_escaped(b, be64(w));
    lemma_be64(v, Seq::empty());
    lemma_be64(w, Seq::empty());
}

/// Where `st` sees some version of `key`, it sees a highest one.
proof fn lemma_latest_exists(m: Map<Seq<u8>, Seq<u8>>, st: TransactionState, key: Seq<u8>, w: u64)
    requires
        is_visible(st, w),
        written_at(m, key, w),
    ensures
        exists|v: u64| latest_visible(m, st, key, v),
    decreases st.version - w,
{
    if exists|u: u64| u > w && is_visible(st, u) && #[trigger] written_at(m, key, u) {
        let u = choose|u: u64| u > w && is_visible(st, u) && #[trigger] written_at(m, key, u);
        lemma_latest_exists(m, st, key, u);
    } else {
        assert(latest_visible(m, st, key, w));
    }
}

/// Rolling back a transaction that wrote `key` leaves what every later
/// snapshot `st2` reads for `key` as it was before the transaction began.
pub proof fn lemma_rollback_restores_reads(
    m0: Map<Seq<u8>, Seq<u8>>,
    st: TransactionState,
    key: Seq<u8>,
    value: Seq<u8>,
    st2: TransactionState,
)
    requires
        st.version == next_version(m0),
        !st.read_only,
        !written_at(m0, key, st.version),
    ensures
        read_result(
            after_rollback(after_write(after_begin(m0), st, key, Some(value)), st.version),
            st2,
            key,
        ) == read_result(m0, st2, key),
{
    let vt = st.version;
    let m2 = after_write(after_begin(m0), st, key, Some(value));
    let m3 = after_rollback(m2, vt);
    lemma_namespaces(key, vt, vt, key);
    assert(m2.contains_key(write_key(vt, key)));
    assert(undone_by(m2, vt, version_key(key, vt)));
    assert forall|w: u64| #![trigger written_at(m3, key, w)] #![trigger written_at(m0, key, w)] (written_at(m3, key, w) == written_at(m0, key, w)
        && (written_at(m0, key, w) ==> m3[version_key(key, w)] == m0[version_key(key, w)])) by {
        let k = version_key(key, w);
        lemma_namespaces(key, w, vt, key);
        lemma_namespaces(key, w, next_version(m0), key);
        if w != vt {
            if undone_by(m2, vt, k) {
                let key2 = choose|key2: Seq<u8>| #[trigger] m2.contains_key(write_key(vt, key2)) && k == version_key(key2, vt);
                lemma_version_key_injective(key, w, key2, vt);
            }
            if k == version_key(key, vt) {
                lemma_version_key_injective(key, w, key, vt);
            }
        }
    }
    assert forall|v: u64| latest_visible(m3, st2, key, v) <==> latest_visible(m0, st2, key, v) by {
        assert(written_at(m3, key, v) == written_at(m0, key, v));
    }
    if exists|v: u64| latest_visible(m0, st2, key, v) {
        let c0 = choose|v: u64| latest_visible(m0, st2, key, v);
        assert(latest_visible(m3, st2, key, c0));
        let c3 = choose|v: u64| latest_visible(m3, st2, key, v);
        assert(written_at(m0, key, c3));
        assert(c3 == c0);
    }
}

/// A transaction's state captured after a write and resumed in a new handle
/// commits as the handle that began it would: its version is no longer open, the write
/// stays under that version, and the transaction's own snapshot reads it.
pub proof fn lemma_resume_continuity(
    m: Map<Seq<u8>, Seq<u8>>,
    st: TransactionState,
    key: Seq<u8>,
    value: Seq<u8>,
)
    requires
        !st.read_only,
        !st.active@.contains(st.version),
    ensures
        ({
            let m3 = after_commit(after_write(m, st, key, Some(value)), st);
            &&& !m3.contains_key(active_key(st.version))
            &&& m3.contains_key(version_key(key, st.version))
            &&& m3[version_key(key, st.version)] == cell(Some(value))
            &&& read_result(m3, st, key) == Some(Some(value))
            &&& forall|st2: TransactionState| #[trigger] latest_visible(m3, st2, key, st.version)
                ==> read_result(m3, st2, key) == Some(Some(value))
            &&& forall|st2: TransactionState| !is_visible(st2, st.version) ==> !(#[trigger] latest_visible(m3, st2, key, st.version))
        }),
{
    let m3 = after_commit(after_write(m, st, key, Some(value)), st);
    lemma_namespaces(key, st.version, st.version, key);
    assert(latest_visible(m3, st, key, st.version));
    assert forall|st2: TransactionState| #[trigger] latest_visible(m3, st2, key, st.version)
        implies read_result(m3, st2, key) == Some(Some(value)) by {
        let c = choose|v: u64| latest_visible(m3, st2, key, v);
        assert(c == st.version);
        assert((seq![1u8] + value).drop_first() =~= value);
    }
    let c = choose|v: u64| latest_visible(m3, st, key, v);
    assert(c == st.version);
    assert((seq![1u8] + value).drop_first() =~= value);
}

/// Every versioned cell of the store is well formed.
pub open spec fn cells_wf(m: Map<Seq<u8>, Seq<u8>>) -> bool {
    forall|key: Seq<u8>, v: u64| #[trigger] m.contains_key(version_key(key, v)) ==> cell_value(m[version_key(key, v)]) is Some
}

/// The shape of every store this layer writes: a well-formed version
/// counter, open-transaction markers, write records and versioned cells.
pub open spec fn store_wf(m: Map<Seq<u8>, Seq<u8>>) -> bool {
    &&& next_version_wf(m)
    &&& actives_wf(m)
    &&& versioned_wf(m)
    &&& cells_wf(m)
    &&& forall|v: u64| #[trigger] writes_wf(m, v)
}

/// A versioned key under `key`'s version prefix belongs to `key`.
proof fn lemma_version_prefix_owner(key: Seq<u8>, key2: Seq<u8>, v: u64)
    requires
        has_prefix(version_key(key2, v), version_prefix(key)),
    ensures
        key2 == key,
{
    let k = version_key(key2, v);
    let p = version_prefix(key);
    let rest = k.subrange(p.len() as int, k.len() as int);
    assert(k =~= p + rest);
    assert(k.drop_first() =~= escaped(key2) + be64(v));
    assert(k.drop_first() =~= escaped(key) + rest);
    lemma_unescape_escaped(key2, be64(v));
    lemma_unescape_escaped(key, rest);
}

/// In a well-formed store every key's versions are well formed and every
/// snapshot reads a well-formed cell.
pub proof fn lemma_store_wf_reads(m: Map<Seq<u8>, Seq<u8>>, st: TransactionState, key: Seq<u8>)
    requires
        store_wf(m),
    ensures
        versions_wf(m, key),
        read_result(m, st, key) is Some,
{
    assert forall|k: Seq<u8>| #![trigger m.contains_key(k), has_prefix(k, version_prefix(key))]
        m.contains_key(k) && has_prefix(k, version_prefix(key)) implies k.len() == version_prefix(key).len() + 8 by {
        let p = version_prefix(key);
        assert(p.subrange(0, 1) =~= seq![TAG_VERSION]);
        assert(k.subrange(0, 1) =~= k.subrange(0, p.len() as int).subrange(0, 1));
        assert(has_prefix(k, seq![TAG_VERSION]));
        let (key2, v) = choose|key2: Seq<u8>, v: u64| k == #[trigger] version_key(key2, v);
        lemma_version_prefix_owner(key, key2, v);
        lemma_version_key_prefix(key, v);
    }
    if exists|v: u64| latest_visible(m, st, key, v) {
        let v = choose|v: u64| latest_visible(m, st, key, v);
        assert(m.contains_key(version_key(key, v)));
    }
}

/// The empty store is well formed.
pub proof fn lemma_empty_store_wf()
    ensures
        store_wf(Map::<Seq<u8>, Seq<u8>>::empty()),
{
}

/// Beginning a transaction keeps the store well formed.
pub proof fn lemma_begin_keeps_store_wf(m: Map<Seq<u8>, Seq<u8>>)
    requires
        store_wf(m),
    ensures
        store_wf(after_begin(m)),
{
    let v = next_version(m);
    let m2 = after_begin(m);
    lemma_be64((v + 1) as u64, Seq::empty());
    lemma_be64(v, Seq::empty());
    assert(active_key(v)[0] != next_version_key()[0]);
    assert(m2[next_version_key()] == be64((v + 1) as u64));
    assert(next_version_wf(m2));
    assert forall|key: Seq<u8>, w: u64| #[trigger] m2.contains_key(version_key(key, w)) implies cell_value(m2[version_key(key, w)]) is Some by {
        lemma_namespaces(key, w, v, key);
        assert(m.contains_key(version_key(key, w)));
    }
    assert forall|k: Seq<u8>| #![trigger m2.contains_key(k), has_prefix(k, seq![TAG_VERSION])]
        m2.contains_key(k) && has_prefix(k, seq![TAG_VERSION]) implies exists|key: Seq<u8>, w: u64| k == #[trigger] version_key(key, w) by {
        assert(k.subrange(0, 1)[0] == TAG_VERSION);
        assert(next_version_key()[0] != TAG_VERSION);
        assert(active_key(v)[0] != TAG_VERSION);
        assert(m.contains_key(k));
    }
    assert forall|k: Seq<u8>| #![trigger m2.contains_key(k), has_prefix(k, seq![TAG_TXN_ACTIVE])]
        m2.contains_key(k) && has_prefix(k, seq![TAG_TXN_ACTIVE]) implies k.len() == 9 by {
        assert(k.subrange(0, 1)[0] == TAG_TXN_ACTIVE);
        assert(next_version_key()[0] != TAG_TXN_ACTIVE);
        if k != active_key(v) {
            assert(m.contains_key(k));
        }
    }
    assert forall|w: u64| #[trigger] writes_wf(m2, w) by {
        assert forall|k: Seq<u8>| #![trigger m2.contains_key(k), has_prefix(k, write_prefix(w))]
            m2.contains_key(k) && has_prefix(k, write_prefix(w)) implies exists|key: Seq<u8>| k == #[trigger] write_key(w, key) by {
            lemma_be64(w, Seq::empty());
            assert(k.subrange(0, 9)[0] == TAG_TXN_WRITE);
            assert(next_version_key()[0] != TAG_TXN_WRITE);
            assert(active_key(v)[0] != TAG_TXN_WRITE);
            assert(m.contains_key(k));
            assert(writes_wf(m, w));
        }
    }
    assert(actives_wf(m2));
    assert(versioned_wf(m2));
    assert(cells_wf(m2));
}

/// Writing a key keeps the store well formed.
pub proof fn lemma_write_keeps_store_wf(m: Map<Seq<u8>, Seq<u8>>, st: TransactionState, key: Seq<u8>, value: Option<Seq<u8>>)
    requires
        store_wf(m),
    ensures
        store_wf(after_write(m, st, key, value)),
{
    let v = st.version;
    let m2 = after_write(m, st, key, value);
    let wk = write_key(v, key);
    let vk = version_key(key, v);
    lemma_be64(v, Seq::empty());
    lemma_namespaces(key, v, v, key);
    assert(next_version_key()[0] != TAG_TXN_WRITE);
    assert(m2[next_version_key()] == m[next_version_key()] || !m.contains_key(next_version_key()));
    assert forall|key2: Seq<u8>, w: u64| #[trigger] m2.contains_key(version_key(key2, w)) implies cell_value(m2[version_key(key2, w)]) is Some by {
        lemma_namespaces(key2, w, v, key);
        if version_key(key2, w) != vk {
            assert(m.contains_key(version_key(key2, w)));
        } else {
            assert((seq![1u8] + value->0).len() >= 1);
        }
    }
    assert forall|k: Seq<u8>| #![trigger m2.contains_key(k), has_prefix(k, seq![TAG_VERSION])]
        m2.contains_key(k) && has_prefix(k, seq![TAG_VERSION]) implies exists|key2: Seq<u8>, w: u64| k == #[trigger] version_key(key2, w) by {
        assert(k.subrange(0, 1)[0] == TAG_VERSION);
        assert(wk[0] != TAG_VERSION);
        if k != vk {
            assert(m.contains_key(k));
        }
    }
    assert forall|k: Seq<u8>| #![trigger m2.contains_key(k), has_prefix(k, seq![TAG_TXN_ACTIVE])]
        m2.contains_key(k) && has_prefix(k, seq![TAG_TXN_ACTIVE]) implies k.len() == 9 by {
        assert(k.subrange(0, 1)[0] == TAG_TXN_ACTIVE);
        assert(wk[0] != TAG_TXN_ACTIVE);
        assert(vk[0] != TAG_TXN_ACTIVE);
        assert(m.contains_key(k));
    }
    assert forall|w: u64| #[trigger] writes_wf(m2, w) by {
        assert forall|k: Seq<u8>| #![trigger m2.contains_key(k), has_prefix(k, write_prefix(w))]
            m2.contains_key(k) && has_prefix(k, write_prefix(w)) implies exists|key2: Seq<u8>| k == #[trigger] write_key(w, key2) by {
            lemma_be64(w, Seq::empty());
            assert(k.subrange(0, 9)[0] == TAG_TXN_WRITE);
            assert(vk[0] != TAG_TXN_WRITE);
            if k == wk {
                assert(k.subrange(1, 9) =~= be64(v));
                assert(k.subrange(0, 9).subrange(1, 9) =~= be64(w));
                lemma_be64(v, be64(w));
                assert(be64_value(be64(v)) == be64_value(be64(w)));
                assert(v == w);
            } else {
                assert(m.contains_key(k));
                assert(writes_wf(m, w));
            }
        }
    }
}

/// Committing keeps the store well formed.
pub proof fn lemma_commit_keeps_store_wf(m: Map<Seq<u8>, Seq<u8>>, st: TransactionState)
    requires
        store_wf(m),
    ensures
        store_wf(after_commit(m, st)),
{
    let m2 = after_commit(m, st);
    assert forall|w: u64| #[trigger] writes_wf(m2, w) by {
        assert(writes_wf(m, w));
    }
}

/// Rolling back keeps the store well formed.
pub proof fn lemma_rollback_keeps_store_wf(m: Map<Seq<u8>, Seq<u8>>, v: u64)
    requires
        store_wf(m),
    ensures
        store_wf(after_rollback(m, v)),
{
    let m2 = after_rollback(m, v);
    assert forall|k: Seq<u8>| undone_by(m, v, k) implies k[0] == TAG_VERSION && exists|key: Seq<u8>, w: u64| k == #[trigger] version_key(key, w) by {
        let key = choose|key: Seq<u8>| #[trigger] m.contains_key(write_key(v, key)) && k == version_key(key, v);
        assert(k == version_key(key, v));
    }
    assert(!undone_by(m, v, next_version_key())) by {
        assert(next_version_key()[0] != TAG_VERSION);
    }
    assert forall|key: Seq<u8>, w: u64| #[trigger] m2.contains_key(version_key(key, w)) implies cell_value(m2[version_key(key, w)]) is Some by {
        if !undone_by(m, v, version_key(key, w)) {
            assert(m.contains_key(version_key(key, w)));
        }
    }
    assert forall|k: Seq<u8>| #![trigger m2.contains_key(k), has_prefix(k, seq![TAG_TXN_ACTIVE])]
        m2.contains_key(k) && has_prefix(k, seq![TAG_TXN_ACTIVE]) implies k.len() == 9 by {
        assert(k.subrange(0, 1)[0] == TAG_TXN_ACTIVE);
        assert(m.contains_key(k));
    }
    assert forall|w: u64| #[trigger] writes_wf(m2, w) by {
        assert forall|k: Seq<u8>| #![trigger m2.contains_key(k), has_prefix(k, write_prefix(w))]
            m2.contains_key(k) && has_prefix(k, write_prefix(w)) implies exists|key2: Seq<u8>| k == #[trigger] write_key(w, key2) by {
            lemma_be64(w, Seq::empty());
            assert(k.subrange(0, 9)[0] == TAG_TXN_WRITE);
            assert(m.contains_key(k));
            assert(writes_wf(m, w));
        }
    }
}

/// Writing a key outside version control keeps the store well formed.
pub proof fn lemma_unversioned_keeps_store_wf(m: Map<Seq<u8>, Seq<u8>>, key: Seq<u8>, value: Seq<u8>)
    requires
        store_wf(m),
    ensures
        store_wf(m.insert(crate::keys::unversioned_key(key), value)),
{
    let u = crate::keys::unversioned_key(key);
    let m2 = m.insert(u, value);
    assert(u[0] == crate::keys::TAG_UNVERSIONED);
    assert(next_version_key()[0] != u[0]);
    assert forall|key2: Seq<u8>, w: u64| #[trigger] m2.contains_key(version_key(key2, w)) implies cell_value(m2[version_key(key2, w)]) is Some by {
        assert(version_key(key2, w)[0] == TAG_VERSION);
        assert(m.contains_key(version_key(key2, w)));
    }
    assert forall|k: Seq<u8>| #![trigger m2.contains_key(k), has_prefix(k, seq![TAG_VERSION])]
        m2.contains_key(k) && has_prefix(k, seq![TAG_VERSION]) implies exists|key2: Seq<u8>, w: u64| k == #[trigger] version_key(key2, w) by {
        assert(k.subrange(0, 1)[0] == TAG_VERSION);
        assert(m.contains_key(k));
    }
    assert forall|k: Seq<u8>| #![trigger m2.contains_key(k), has_prefix(k, seq![TAG_TXN_ACTIVE])]
        m2.contains_key(k) && has_prefix(k, seq![TAG_TXN_ACTIVE]) implies k.len() == 9 by {
        assert(k.subrange(0, 1)[0] == TAG_TXN_ACTIVE);
        assert(m.contains_key(k));
    }
    assert forall|w: u64| #[trigger] writes_wf(m2, w) by {
        assert forall|k: Seq<u8>| #![trigger m2.contains_key(k), has_prefix(k, write_prefix(w))]
            m2.contains_key(k) && has_prefix(k, write_prefix(w)) implies exists|key2: Seq<u8>| k == #[trigger] write_key(w, key2) by {
            lemma_be64(w, Seq::empty());
            assert(k.subrange(0, 9)[0] == TAG_TXN_WRITE);
            assert(m.contains_key(k));
            assert(writes_wf(m, w));
        }
    }
}

/// Committing a read-write transaction whose open marker is stored leaves
/// exactly one open-transaction key fewer.
pub proof fn lemma_commit_closes_one(m: Map<Seq<u8>, Seq<u8>>, st: TransactionState)
    requires
        !st.read_only,
        m.contains_key(active_key(st.version)),
        m.dom().finite(),
    ensures
        after_commit(m, st).dom().filter(|k: Seq<u8>| has_prefix(k, seq![TAG_TXN_ACTIVE])).len() + 1
            == m.dom().filter(|k: Seq<u8>| has_prefix(k, seq![TAG_TXN_ACTIVE])).len(),
{
    let a = active_key(st.version);
    let f = m.dom().filter(|k: Seq<u8>| has_prefix(k, seq![TAG_TXN_ACTIVE]));
    let g = after_commit(m, st).dom().filter(|k: Seq<u8>| has_prefix(k, seq![TAG_TXN_ACTIVE]));
    assert(a.subrange(0, 1) =~= seq![TAG_TXN_ACTIVE]);
    assert(f.contains(a));
    assert(g =~= f.remove(a));
    m.dom().lemma_len_filter(|k: Seq<u8>| has_prefix(k, seq![TAG_TXN_ACTIVE]));
}

} // verus!
