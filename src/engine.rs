//! The ordered key-value capability that any storage backend exposes, so that
//! the transaction layer does not depend on how keys are stored.
use vstd::prelude::*;
use crate::bytes::{lex_lt, has_prefix, lex_less, starts_with};
use crate::error::Result;
use crate::ordmap::keys_ascend;

verus! {

/// A backend's status.
pub struct Status {
    /// The backend's name.
    pub name: String,
    /// The number of live keys.
    pub keys: u64,
    /// The bytes of live keys and values.
    pub size: u64,
    /// The bytes the backend occupies on disk.
    pub total_disk_size: u64,
    /// The bytes on disk that live entries occupy.
    pub live_disk_size: u64,
    /// The bytes on disk that superseded entries occupy.
    pub garbage_disk_size: u64,
}

/// What a status report says: name, live keys, live bytes, bytes on disk,
/// live bytes on disk, garbage bytes on disk.
pub type StatusView = (Seq<char>, u64, u64, u64, u64, u64);

impl View for Status {
    type V = StatusView;

    open spec fn view(&self) -> StatusView {
        (self.name@, self.keys, self.size, self.total_disk_size, self.live_disk_size, self.garbage_disk_size)
    }
}

/// One end of a key range.
pub enum KeyBound {
    Included(Vec<u8>),
    Excluded(Vec<u8>),
    Unbounded,
}

/// Which keys a scan visits.
pub enum Selector {
    /// The keys that begin with these bytes.
    Prefix(Vec<u8>),
    /// The keys between two bounds.
    Range(KeyBound, KeyBound),
}

pub open spec fn above(k: Seq<u8>, b: KeyBound) -> bool {
    match b {
        KeyBound::Included(s) => s@ == k || lex_lt(s@, k),
        KeyBound::Excluded(s) => lex_lt(s@, k),
        KeyBound::Unbounded => true,
    }
}

pub open spec fn below(k: Seq<u8>, b: KeyBound) -> bool {
    match b {
        KeyBound::Included(s) => s@ == k || lex_lt(k, s@),
        KeyBound::Excluded(s) => lex_lt(k, s@),
        KeyBound::Unbounded => true,
    }
}

/// Whether a scan by `sel` visits `k`.
pub open spec fn selects(sel: Selector, k: Seq<u8>) -> bool {
    match sel {
        Selector::Prefix(p) => has_prefix(k, p@),
        Selector::Range(lo, hi) => above(k, lo) && below(k, hi),
    }
}

/// Decides whether a scan by `sel` visits `k`.
pub fn selector_admits(sel: &Selector, k: &[u8]) -> (r: bool)
    ensures
        r == selects(*sel, k@),
{
    match sel {
        Selector::Prefix(p) => starts_with(k, p.as_slice()),
        Selector::Range(lo, hi) => {
            let a = match lo {
                KeyBound::Included(s) => crate::bytes::bytes_eq(s.as_slice(), k) || lex_less(s.as_slice(), k),
                KeyBound::Excluded(s) => lex_less(s.as_slice(), k),
                KeyBound::Unbounded => true,
            };
            let b = match hi {
                KeyBound::Included(s) => crate::bytes::bytes_eq(s.as_slice(), k) || lex_less(k, s.as_slice()),
                KeyBound::Excluded(s) => lex_less(k, s.as_slice()),
                KeyBound::Unbounded => true,
            };
            a && b
        },
    }
}

/// The keys of a list of entries.
pub open spec fn entry_keys(v: Seq<(Vec<u8>, Vec<u8>)>) -> Seq<Seq<u8>> {
    v.map_values(|e: (Vec<u8>, Vec<u8>)| e.0@)
}

/// `v` lists, ascending by key, exactly the entries of `m` that `sel` visits.
pub open spec fn lists_selected(
    v: Seq<(Vec<u8>, Vec<u8>)>,
    m: Map<Seq<u8>, Seq<u8>>,
    sel: Selector,
) -> bool {
    &&& keys_ascend(entry_keys(v))
    &&& forall|i: int|
        0 <= i < v.len() ==> selects(sel, #[trigger] v[i].0@) && m.contains_key(v[i].0@) && m[v[i].0@]
            == v[i].1@
    &&& forall|k: Seq<u8>|
        m.contains_key(k) && selects(sel, k) ==> exists|i: int| 0 <= i < v.len() && #[trigger] v[i].0@ == k
}

/// What an optional byte vector holds.
pub open spec fn opt_view(v: Option<Vec<u8>>) -> Option<Seq<u8>> {
    match v {
        Some(s) => Some(s@),
        None => None,
    }
}

/// An ordered key-value store. Its contents are a map from key bytes to value
/// bytes; a failed call leaves them as they were.
///
/// Every store of this library defines `contents`, `wf` and `infallible`. A
/// store that leaves them at their defaults is never well formed, so no
/// verified operation accepts it and nothing proved here speaks of it.
pub trait Engine {
    /// What the store holds.
    closed spec fn contents(&self) -> Map<Seq<u8>, Seq<u8>> {
        Map::empty()
    }

    /// The store's own invariant.
    closed spec fn wf(&self) -> bool {
        false
    }

    /// Whether no call on the store ever fails.
    closed spec fn infallible(&self) -> bool {
        false
    }

    /// The status the store reports.
    closed spec fn status_view(&self) -> StatusView {
        arbitrary()
    }

    /// Removes `key`.
    fn delete(&mut self, key: &[u8]) -> (r: Result<()>)
        requires
            old(self).wf(),
        ensures
            final(self).wf(),
            final(self).infallible() == old(self).infallible(),
            old(self).infallible() ==> r is Ok,
            r is Ok ==> final(self).contents() == old(self).contents().remove(key@),
            r is Err ==> final(self).contents() == old(self).contents(),
            r matches Err(e) ==> e is StorageIo,
    ;

    /// Looks up `key`.
    fn get(&mut self, key: &[u8]) -> (r: Result<Option<Vec<u8>>>)
        requires
            old(self).wf(),
        ensures
            final(self).wf(),
            final(self).infallible() == old(self).infallible(),
            old(self).infallible() ==> r is Ok,
            final(self).status_view() == old(self).status_view(),
            final(self).contents() == old(self).contents(),
            r matches Ok(v) ==> opt_view(v) == old(self).contents().get(key@),
            r matches Err(e) ==> e is StorageIo,
    ;

    /// Stores `value` under `key`.
    fn set(&mut self, key: &[u8], value: Vec<u8>) -> (r: Result<()>)
        requires
            old(self).wf(),
        ensures
            final(self).wf(),
            final(self).infallible() == old(self).infallible(),
            old(self).infallible() ==> r is Ok,
            r is Ok ==> final(self).contents() == old(self).contents().insert(key@, value@),
            r is Err ==> final(self).contents() == old(self).contents(),
            r matches Err(e) ==> e is StorageIo,
    ;

    /// Makes every earlier write durable.
    fn flush(&mut self) -> (r: Result<()>)
        requires
            old(self).wf(),
        ensures
            final(self).wf(),
            final(self).infallible() == old(self).infallible(),
            old(self).infallible() ==> r is Ok,
            final(self).status_view() == old(self).status_view(),
            final(self).contents() == old(self).contents(),
            r matches Err(e) ==> e is StorageIo,
    ;

    /// The entries that `sel` visits, ascending by key.
    fn scan(&mut self, sel: Selector) -> (r: Result<Vec<(Vec<u8>, Vec<u8>)>>)
        requires
            old(self).wf(),
        ensures
            final(self).wf(),
            final(self).infallible() == old(self).infallible(),
            old(self).infallible() ==> r is Ok,
            final(self).status_view() == old(self).status_view(),
            final(self).contents() == old(self).contents(),
            final(self).contents().dom().finite(),
            r matches Ok(v) ==> lists_selected(v@, old(self).contents(), sel),
            r matches Err(e) ==> e is StorageIo,
    ;

    /// The store's status.
    fn status(&mut self) -> (r: Result<Status>)
        requires
            old(self).wf(),
        ensures
            final(self).wf(),
            final(self).infallible() == old(self).infallible(),
            old(self).infallible() ==> r is Ok,
            final(self).status_view() == old(self).status_view(),
            final(self).contents() == old(self).contents(),
            r matches Ok(s) ==> s.keys == old(self).contents().len() && s@ == old(self).status_view(),
            r matches Err(e) ==> e is StorageIo,
    ;
}

/// A list that `lists_selected` describes is as long as the set of keys it
/// selects.
pub proof fn lemma_selected_count(v: Seq<(Vec<u8>, Vec<u8>)>, m: Map<Seq<u8>, Seq<u8>>, sel: Selector)
    requires
        lists_selected(v, m, sel),
        m.dom().finite(),
    ensures
        v.len() == m.dom().filter(|k: Seq<u8>| selects(sel, k)).len(),
{
    let ks = entry_keys(v);
    assert forall|i: int, j: int| 0 <= i < ks.len() && 0 <= j < ks.len() && i != j implies ks[i] != ks[j] by {
        if i < j {
            crate::bytes::lemma_lex_irreflexive(ks[i]);
        } else {
            crate::bytes::lemma_lex_irreflexive(ks[j]);
        }
    }
    assert(ks.no_duplicates());
    ks.unique_seq_to_set();
    let s = m.dom().filter(|k: Seq<u8>| selects(sel, k));
    assert forall|k: Seq<u8>| ks.to_set().contains(k) <==> s.contains(k) by {
        if ks.to_set().contains(k) {
            let i = choose|i: int| 0 <= i < ks.len() && ks[i] == k;
            assert(ks[i] == v[i].0@);
        }
        if s.contains(k) {
            let i = choose|i: int| 0 <= i < v.len() && #[trigger] v[i].0@ == k;
            assert(ks[i] == k);
        }
    }
    assert(ks.to_set() =~= s);
}

} // verus!
