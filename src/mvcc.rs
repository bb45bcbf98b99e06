//! The engine facade: owns the backend, creates transactions, and offers
//! access outside version control and a status report.
use vstd::prelude::*;
use crate::bytes::{be64, has_prefix};
use crate::engine::{self, Engine, StatusView, Selector, lemma_selected_count, opt_view, selects};
use crate::error::{Error, Result};
use crate::keys::{Key, TAG_TXN_ACTIVE, unversioned_key, next_version_key};
use crate::txn::{
    Transaction, TransactionState, actives_wf, after_begin, latest_version, lists_active,
    next_version, next_version_wf, store_wf, lemma_unversioned_keeps_store_wf,
};

verus! {

/// The status of the transaction layer.
pub struct Status {
    /// The number of versions allocated so far.
    pub versions: u64,
    /// The number of open transactions.
    pub active_txns: u64,
    /// The backend's own status.
    pub storage: engine::Status,
}

pub struct MVCC<E: Engine> {
    engine: E,
}

impl<E: Engine> MVCC<E> {
    /// What the backend holds.
    pub closed spec fn contents(&self) -> Map<Seq<u8>, Seq<u8>> {
        self.engine.contents()
    }

    pub closed spec fn wf(&self) -> bool {
        self.engine.wf()
    }

    pub closed spec fn backend(&self) -> E {
        self.engine
    }

    /// The status the backend reports.
    pub closed spec fn backend_status(&self) -> StatusView {
        self.engine.status_view()
    }

    /// Whether no call on the backend ever fails.
    pub closed spec fn infallible(&self) -> bool {
        self.engine.infallible()
    }

    pub fn new(engine: E) -> (r: Self)
        requires
            engine.wf(),
        ensures
            r.wf(),
            r.backend() == engine,
            r.contents() == engine.contents(),
            r.infallible() == engine.infallible(),
            r.backend_status() == engine.status_view(),
    {
        MVCC { engine }
    }

    /// The backend, for the operations of transactions.
    pub fn engine(&mut self) -> (r: &mut E)
        ensures
            *r == old(self).backend(),
            final(self).backend() == *final(r),
            old(self).wf() ==> r.wf(),
            r.contents() == old(self).contents(),
            r.infallible() == old(self).infallible(),
            final(self).wf() == final(r).wf(),
            final(self).contents() == final(r).contents(),
            final(self).infallible() == final(r).infallible(),
            r.status_view() == old(self).backend_status(),
            final(self).backend_status() == final(r).status_view(),
    {
        &mut self.engine
    }

    /// Begins a read-write transaction.
    pub fn begin(&mut self) -> (r: Result<Transaction>)
        requires
            old(self).wf(),
        ensures
            final(self).wf(),
            final(self).infallible() == old(self).infallible(),
            r matches Ok(t) ==> {
                let m = old(self).contents();
                &&& next_version_wf(m) && actives_wf(m)
                &&& next_version(m) < u64::MAX
                &&& t.state_spec().version == next_version(m)
                &&& !t.state_spec().read_only
                &&& lists_active(t.state_spec().active@, m)
                &&& final(self).contents() == after_begin(m)
            },
            !next_version_wf(old(self).contents()) || !actives_wf(old(self).contents()) ==> r is Err,
            next_version_wf(old(self).contents()) && next_version(old(self).contents()) == u64::MAX ==> r is Err
                && final(self).contents() == old(self).contents(),
            r matches Err(e) ==> e is StorageIo
                || (e is Encoding && (!next_version_wf(old(self).contents()) || !actives_wf(old(self).contents())))
                || (e is VersionsExhausted && next_version_wf(old(self).contents()) && next_version(old(self).contents()) == u64::MAX),
            old(self).infallible() && next_version_wf(old(self).contents()) && actives_wf(old(self).contents())
                && next_version(old(self).contents()) < u64::MAX ==> r is Ok,
            r is Ok && store_wf(old(self).contents()) ==> store_wf(final(self).contents()),
            r is Err ==> final(self).contents() == old(self).contents() || final(self).contents()
                == old(self).contents().insert(next_version_key(), be64((next_version(old(self).contents()) + 1) as u64)),
    {
        Transaction::begin(&mut self.engine)
    }

    /// Begins a read-only transaction at the latest allocated version.
    pub fn begin_read_only(&mut self) -> (r: Result<Transaction>)
        requires
            old(self).wf(),
        ensures
            final(self).wf(),
            final(self).infallible() == old(self).infallible(),
            final(self).contents() == old(self).contents(),
            r matches Ok(t) ==> {
                let m = old(self).contents();
                &&& t.state_spec().read_only
                &&& next_version_wf(m) && actives_wf(m)
                &&& t.state_spec().version == latest_version(m)
                &&& lists_active(t.state_spec().active@, m)
            },
            !next_version_wf(old(self).contents()) || !actives_wf(old(self).contents()) ==> r is Err,
            r matches Err(e) ==> e is StorageIo
                || (e is Encoding && (!next_version_wf(old(self).contents()) || !actives_wf(old(self).contents()))),
            old(self).infallible() && next_version_wf(old(self).contents()) && actives_wf(old(self).contents()) ==> r is Ok,
    {
        Transaction::begin_read_only(&mut self.engine, None)
    }

    /// Begins a read-only transaction at `version`.
    pub fn begin_as_of(&mut self, version: u64) -> (r: Result<Transaction>)
        requires
            old(self).wf(),
        ensures
            final(self).wf(),
            final(self).infallible() == old(self).infallible(),
            final(self).contents() == old(self).contents(),
            r matches Ok(t) && t.state_spec().read_only && t.state_spec().version == version
                && t.state_spec().active@ == Seq::<u64>::empty(),
    {
        Transaction::begin_read_only(&mut self.engine, Some(version))
    }

    /// Continues a transaction from its state.
    pub fn resume(&self, state: TransactionState) -> (r: Result<Transaction>)
        ensures
            r matches Ok(t) && t.state_spec() == state,
    {
        Ok(Transaction::resume(state))
    }

    /// Reads a key outside version control.
    pub fn get_unversioned(&mut self, key: &[u8]) -> (r: Result<Option<Vec<u8>>>)
        requires
            old(self).wf(),
        ensures
            final(self).wf(),
            final(self).infallible() == old(self).infallible(),
            final(self).contents() == old(self).contents(),
            r matches Ok(v) ==> opt_view(v) == old(self).contents().get(unversioned_key(key@)),
            r matches Err(e) ==> e is StorageIo,
            old(self).infallible() ==> r is Ok,
    {
        let k = crate::bytes::copy_range(key, 0, key.len());
        assert(key@.subrange(0, key@.len() as int) =~= key@);
        let ek = Key::Unversioned(k).encode();
        self.engine.get(ek.as_slice())
    }

    /// Writes a key outside version control.
    pub fn set_unversioned(&mut self, key: &[u8], value: Vec<u8>) -> (r: Result<()>)
        requires
            old(self).wf(),
        ensures
            final(self).wf(),
            final(self).infallible() == old(self).infallible(),
            r is Ok ==> final(self).contents() == old(self).contents().insert(unversioned_key(key@), value@),
            r is Ok && store_wf(old(self).contents()) ==> store_wf(final(self).contents()),
            r is Err ==> final(self).contents() == old(self).contents(),
            r matches Err(e) ==> e is StorageIo,
            old(self).infallible() ==> r is Ok,
    {
        let k = crate::bytes::copy_range(key, 0, key.len());
        assert(key@.subrange(0, key@.len() as int) =~= key@);
        let ek = Key::Unversioned(k).encode();
        proof {
            if store_wf(self.engine.contents()) {
                lemma_unversioned_keeps_store_wf(self.engine.contents(), key@, value@);
            }
        }
        self.engine.set(ek.as_slice(), value)
    }

    /// Reports the versions allocated, the open transactions, and the
    /// backend's status.
    pub fn status(&mut self) -> (r: Result<Status>)
        requires
            old(self).wf(),
        ensures
            final(self).wf(),
            final(self).infallible() == old(self).infallible(),
            final(self).contents() == old(self).contents(),
            r matches Ok(s) ==> {
                let m = old(self).contents();
                &&& next_version_wf(m)
                &&& s.versions == latest_version(m)
                &&& s.active_txns == m.dom().filter(|k: Seq<u8>| has_prefix(k, seq![TAG_TXN_ACTIVE])).len()
                &&& s.storage.keys == m.len()
                &&& s.storage@ == old(self).backend_status()
            },
            final(self).backend_status() == old(self).backend_status(),
            !next_version_wf(old(self).contents()) ==> r is Err,
            r matches Err(e) ==> e is StorageIo || (e is Encoding && !next_version_wf(old(self).contents())),
            old(self).infallible() && next_version_wf(old(self).contents()) ==> r is Ok,
    {
        let ghost m = self.engine.contents();
        let nk = Key::NextVersion.encode();
        assert(nk@ =~= next_version_key());
        let versions = match self.engine.get(nk.as_slice()) {
            Err(e) => return Err(e),
            Ok(None) => 0,
            Ok(Some(b)) => {
                if b.len() != 8 {
                    return Err(Error::Encoding);
                }
                let v = crate::bytes::read_be64(b.as_slice(), 0);
                assert(b@.subrange(0, 8) =~= b@);
                if v == 0 { 0 } else { v - 1 }
            },
        };
        let mut p: Vec<u8> = Vec::new();
        p.push(TAG_TXN_ACTIVE);
        let sel = Selector::Prefix(p);
        let ghost gsel = sel;
        let entries = match self.engine.scan(sel) {
            Ok(e) => e,
            Err(e) => return Err(e),
        };
        proof {
            lemma_selected_count(entries@, m, gsel);
            assert(m.dom().filter(|k: Seq<u8>| selects(gsel, k)) =~= m.dom().filter(|k: Seq<u8>| has_prefix(k, seq![TAG_TXN_ACTIVE])));
        }
        let active_txns = entries.len() as u64;
        let storage = match self.engine.status() {
            Ok(s) => s,
            Err(e) => return Err(e),
        };
        Ok(Status { versions, active_txns, storage })
    }
}

} // verus!
