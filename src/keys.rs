//! The keys of the transaction layer: five namespaces multiplexed onto one
//! flat keyspace. A tag byte selects the namespace; byte-string fields are
//! escaped (`0x00` becomes `0x00 0xff`) and terminated by `0x00 0x00`, and
//! versions are eight big-endian bytes, so that each namespace keeps its
//! logical order and no field can be mistaken for a boundary.
use vstd::prelude::*;
use crate::bytes::{be64, be64_value, lemma_be64, push_be64, read_be64};
use crate::error::{Error, Result};

verus! {

pub const TAG_NEXT_VERSION: u8 = 1;
pub const TAG_TXN_ACTIVE: u8 = 2;
pub const TAG_TXN_WRITE: u8 = 3;
pub const TAG_VERSION: u8 = 4;
pub const TAG_UNVERSIONED: u8 = 5;

/// A key of the transaction layer.
pub enum Key {
    /// The next version to allocate.
    NextVersion,
    /// Marks a transaction as open.
    TxnActive(u64),
    /// Records that a transaction wrote a key.
    TxnWrite(u64, Vec<u8>),
    /// A key's value as written at a version.
    Version(Vec<u8>, u64),
    /// A key outside version control.
    Unversioned(Vec<u8>),
}

/// The escaped, terminated form of a byte string.
pub open spec fn escaped(s: Seq<u8>) -> Seq<u8>
    decreases s.len(),
{
    if s.len() == 0 {
        seq![0u8, 0u8]
    } else if s[0] == 0 {
        seq![0u8, 0xffu8] + escaped(s.drop_first())
    } else {
        seq![s[0]] + escaped(s.drop_first())
    }
}

/// Reads an escaped, terminated byte string off the front of `b`: the string
/// and what follows it.
pub open spec fn unescaped(b: Seq<u8>) -> Option<(Seq<u8>, Seq<u8>)>
    decreases b.len(),
{
    if b.len() == 0 {
        None
    } else if b[0] == 0 {
        if b.len() < 2 {
            None
        } else if b[1] == 0 {
            Some((Seq::empty(), b.subrange(2, b.len() as int)))
        } else if b[1] == 0xff {
            prepend(seq![0u8], unescaped(b.subrange(2, b.len() as int)))
        } else {
            None
        }
    } else {
        prepend(seq![b[0]], unescaped(b.drop_first()))
    }
}

pub open spec fn prepend(p: Seq<u8>, r: Option<(Seq<u8>, Seq<u8>)>) -> Option<(Seq<u8>, Seq<u8>)> {
    match r {
        Some((k, rest)) => Some((p + k, rest)),
        None => None,
    }
}

/// An escaped string reads back as itself, with what follows untouched.
pub proof fn lemma_unescape_escaped(s: Seq<u8>, rest: Seq<u8>)
    ensures
        unescaped(escaped(s) + rest) == Some((s, rest)),
    decreases s.len(),
{
    let b = escaped(s) + rest;
    if s.len() == 0 {
        assert(b.subrange(2, b.len() as int) =~= rest);
    } else {
        lemma_unescape_escaped(s.drop_first(), rest);
        if s[0] == 0 {
            assert(b.subrange(2, b.len() as int) =~= escaped(s.drop_first()) + rest);
        } else {
            assert(b.drop_first() =~= escaped(s.drop_first()) + rest);
        }
        assert(seq![s[0]] + s.drop_first() =~= s);
    }
}

/// What reads back as a string is that string escaped, then the rest.
pub proof fn lemma_unescaped_is_escaped(b: Seq<u8>)
    requires
        unescaped(b) is Some,
    ensures
        b == escaped((unescaped(b)->0).0) + (unescaped(b)->0).1,
    decreases b.len(),
{
    if b[0] == 0 {
        if b[1] == 0 {
            assert(b =~= escaped(Seq::empty()) + b.subrange(2, b.len() as int));
        } else {
            let t = b.subrange(2, b.len() as int);
            lemma_unescaped_is_escaped(t);
            let k = (unescaped(t)->0).0;
            assert((seq![0u8] + k).drop_first() =~= k);
            assert(escaped(seq![0u8] + k) == seq![0u8, 0xffu8] + escaped(k));
            assert(b =~= seq![0u8, 0xffu8] + t);
            assert(b =~= escaped(seq![0u8] + k) + (unescaped(t)->0).1);
        }
    } else {
        let t = b.drop_first();
        lemma_unescaped_is_escaped(t);
        let k = (unescaped(t)->0).0;
        assert((seq![b[0]] + k).drop_first() =~= k);
        assert(escaped(seq![b[0]] + k) == seq![b[0]] + escaped(k));
        assert(b =~= seq![b[0]] + t);
        assert(b =~= escaped(seq![b[0]] + k) + (unescaped(t)->0).1);
    }
}

/// The encoding of a key.
pub open spec fn encoded(k: Key) -> Seq<u8> {
    match k {
        Key::NextVersion => seq![TAG_NEXT_VERSION],
        Key::TxnActive(v) => seq![TAG_TXN_ACTIVE] + be64(v),
        Key::TxnWrite(v, key) => seq![TAG_TXN_WRITE] + be64(v) + escaped(key@),
        Key::Version(key, v) => seq![TAG_VERSION] + escaped(key@) + be64(v),
        Key::Unversioned(key) => seq![TAG_UNVERSIONED] + escaped(key@),
    }
}

pub open spec fn next_version_key() -> Seq<u8> {
    seq![TAG_NEXT_VERSION]
}

pub open spec fn active_key(v: u64) -> Seq<u8> {
    seq![TAG_TXN_ACTIVE] + be64(v)
}

pub open spec fn write_key(v: u64, key: Seq<u8>) -> Seq<u8> {
    seq![TAG_TXN_WRITE] + be64(v) + escaped(key)
}

pub open spec fn version_prefix(key: Seq<u8>) -> Seq<u8> {
    seq![TAG_VERSION] + escaped(key)
}

pub open spec fn version_key(key: Seq<u8>, v: u64) -> Seq<u8> {
    version_prefix(key) + be64(v)
}

pub open spec fn unversioned_key(key: Seq<u8>) -> Seq<u8> {
    seq![TAG_UNVERSIONED] + escaped(key)
}

/// Appends the escaped, terminated form of `s`.
pub fn push_escaped(dst: &mut Vec<u8>, s: &[u8])
    ensures
        final(dst)@ == old(dst)@ + escaped(s@),
{
    let mut i: usize = 0;
    assert(s@.subrange(0, s@.len() as int) =~= s@);
    while i < s.len()
        invariant
            i <= s@.len(),
            dst@ + escaped(s@.subrange(i as int, s@.len() as int)) == old(dst)@ + escaped(s@),
        decreases s@.len() - i,
    {
        let ghost before = dst@;
        let ghost t = s@.subrange(i as int, s@.len() as int);
        assert(t.drop_first() =~= s@.subrange(i + 1, s@.len() as int));
        if s[i] == 0 {
            dst.push(0u8);
            dst.push(0xffu8);
            assert(dst@ + escaped(t.drop_first()) =~= before + escaped(t));
        } else {
            dst.push(s[i]);
            assert(dst@ + escaped(t.drop_first()) =~= before + escaped(t));
        }
        i = i + 1;
    }
    let ghost before = dst@;
    dst.push(0u8);
    dst.push(0u8);
    assert(dst@ =~= before + escaped(s@.subrange(i as int, s@.len() as int)));
}

/// Reads an escaped, terminated string from `b` at `from`: the string and
/// where what follows it starts.
pub fn read_escaped(b: &[u8], from: usize) -> (r: Option<(Vec<u8>, usize)>)
    requires
        from <= b@.len(),
    ensures
        match unescaped(b@.subrange(from as int, b@.len() as int)) {
            None => r is None,
            Some((k, rest)) => r matches Some((out, end)) && out@ == k && end <= b@.len()
                && b@.subrange(end as int, b@.len() as int) == rest,
        },
{
    let ghost whole = b@.subrange(from as int, b@.len() as int);
    let mut out: Vec<u8> = Vec::new();
    let mut i: usize = from;
    while i < b.len()
        invariant
            from <= i <= b@.len(),
            whole == b@.subrange(from as int, b@.len() as int),
            unescaped(whole) == prepend(out@, unescaped(b@.subrange(i as int, b@.len() as int))),
        decreases b@.len() - i,
    {
        let ghost t = b@.subrange(i as int, b@.len() as int);
        if b[i] == 0 {
            if i + 1 >= b.len() {
                assert(t.len() == 1);
                assert(unescaped(t) is None);
                assert(unescaped(whole) is None);
                return None;
            }
            if b[i + 1] == 0 {
                assert(t.subrange(2, t.len() as int) =~= b@.subrange(i + 2, b@.len() as int));
                assert(unescaped(t) == Some((Seq::<u8>::empty(), b@.subrange(i + 2, b@.len() as int))));
                assert(out@ + Seq::<u8>::empty() =~= out@);
                return Some((out, i + 2));
            } else if b[i + 1] == 0xff {
                assert(t.subrange(2, t.len() as int) =~= b@.subrange(i + 2, b@.len() as int));
                let ghost o = out@;
                out.push(0u8);
                proof {
                    let u = unescaped(b@.subrange(i + 2, b@.len() as int));
                    match u {
                        Some((k, rest)) => assert(o + (seq![0u8] + k) =~= out@ + k),
                        None => {},
                    }
                }
                i = i + 2;
            } else {
                assert(unescaped(t) is None);
                assert(unescaped(whole) is None);
                return None;
            }
        } else {
            assert(t.drop_first() =~= b@.subrange(i + 1, b@.len() as int));
            let ghost o = out@;
            out.push(b[i]);
            proof {
                let u = unescaped(b@.subrange(i + 1, b@.len() as int));
                match u {
                    Some((k, rest)) => assert(o + (seq![t[0]] + k) =~= out@ + k),
                    None => {},
                }
            }
            i = i + 1;
        }
    }
    assert(b@.subrange(i as int, b@.len() as int).len() == 0);
    None
}

impl Key {
    /// Encodes the key.
    pub fn encode(&self) -> (r: Vec<u8>)
        ensures
            r@ == encoded(*self),
    {
        let mut r: Vec<u8> = Vec::new();
        match self {
            Key::NextVersion => {
                r.push(TAG_NEXT_VERSION);
            },
            Key::TxnActive(v) => {
                r.push(TAG_TXN_ACTIVE);
                push_be64(&mut r, *v);
            },
            Key::TxnWrite(v, key) => {
                r.push(TAG_TXN_WRITE);
                push_be64(&mut r, *v);
                push_escaped(&mut r, key.as_slice());
            },
            Key::Version(key, v) => {
                r.push(TAG_VERSION);
                push_escaped(&mut r, key.as_slice());
                push_be64(&mut r, *v);
            },
            Key::Unversioned(key) => {
                r.push(TAG_UNVERSIONED);
                push_escaped(&mut r, key.as_slice());
            },
        }
        assert(r@ =~= encoded(*self));
        r
    }

    /// Decodes a key; fails exactly on bytes that are no key's encoding.
    pub fn decode(b: &[u8]) -> (r: Result<Key>)
        ensures
            r matches Ok(k) ==> encoded(k) == b@,
            r is Err ==> forall|k: Key| encoded(k) != b@,
            r is Err ==> forall|key: Seq<u8>, v: u64| #[trigger] version_key(key, v) != b@,
            r matches Err(e) ==> e == Error::Encoding,
    {
        let d = if b.len() == 0 {
            None
        } else if b[0] == TAG_NEXT_VERSION {
            if b.len() == 1 {
                assert(encoded(Key::NextVersion) =~= b@);
                Some(Key::NextVersion)
            } else {
                None
            }
        } else if b[0] == TAG_TXN_ACTIVE {
            decode_txn_active(b)
        } else if b[0] == TAG_TXN_WRITE {
            decode_txn_write(b)
        } else if b[0] == TAG_VERSION {
            decode_version(b)
        } else if b[0] == TAG_UNVERSIONED {
            decode_unversioned(b)
        } else {
            None
        };
        match d {
            Some(k) => Ok(k),
            None => {
                proof {
                    assert forall|k: Key| encoded(k) != b@ by {
                        lemma_encoded_tag(k);
                    }
                    assert forall|key: Seq<u8>, v: u64| #[trigger] version_key(key, v) != b@ by {
                        assert(version_key(key, v)[0] == TAG_VERSION);
                    }
                }
                Err(Error::Encoding)
            },
        }
    }
}

pub open spec fn tag_of(k: Key) -> u8 {
    match k {
        Key::NextVersion => TAG_NEXT_VERSION,
        Key::TxnActive(_) => TAG_TXN_ACTIVE,
        Key::TxnWrite(_, _) => TAG_TXN_WRITE,
        Key::Version(_, _) => TAG_VERSION,
        Key::Unversioned(_) => TAG_UNVERSIONED,
    }
}

/// An encoding starts with its namespace's tag.
pub proof fn lemma_encoded_tag(k: Key)
    ensures
        encoded(k).len() >= 1,
        encoded(k)[0] == tag_of(k),
{
}

fn decode_txn_active(b: &[u8]) -> (r: Option<Key>)
    requires
        b@.len() >= 1,
        b@[0] == TAG_TXN_ACTIVE,
    ensures
        r matches Some(k) ==> encoded(k) == b@,
        r is None ==> forall|k: Key| tag_of(k) == TAG_TXN_ACTIVE ==> encoded(k) != b@,
{
    if b.len() == 9 {
        let v = read_be64(b, 1);
        proof {
            lemma_be64(v, b@.subrange(1, 9));
            assert(encoded(Key::TxnActive(v)) =~= b@);
        }
        return Some(Key::TxnActive(v));
    }
    proof {
        assert forall|k: Key| tag_of(k) == TAG_TXN_ACTIVE implies encoded(k) != b@ by {
            if let Key::TxnActive(v) = k {
                lemma_be64(v, Seq::empty());
            }
        }
    }
    None
}

fn decode_txn_write(b: &[u8]) -> (r: Option<Key>)
    requires
        b@.len() >= 1,
        b@[0] == TAG_TXN_WRITE,
    ensures
        r matches Some(k) ==> encoded(k) == b@,
        r is None ==> forall|k: Key| tag_of(k) == TAG_TXN_WRITE ==> encoded(k) != b@,
{
    if b.len() >= 9 {
        let v = read_be64(b, 1);
        match read_escaped(b, 9) {
            Some((key, end)) => {
                if end == b.len() {
                    proof {
                        lemma_be64(v, b@.subrange(1, 9));
                        let t = b@.subrange(9, b@.len() as int);
                        lemma_unescaped_is_escaped(t);
                        assert(escaped(key@) =~= t);
                        assert(encoded(Key::TxnWrite(v, key)) =~= b@);
                    }
                    return Some(Key::TxnWrite(v, key));
                }
            },
            None => {},
        }
    }
    proof {
        assert forall|k: Key| tag_of(k) == TAG_TXN_WRITE implies encoded(k) != b@ by {
            if let Key::TxnWrite(v, key) = k {
                if encoded(k) == b@ {
                    lemma_be64(v, Seq::empty());
                    assert(b@.subrange(9, b@.len() as int) =~= escaped(key@) + Seq::<u8>::empty());
                    lemma_unescape_escaped(key@, Seq::empty());
                }
            }
        }
    }
    None
}

fn decode_version(b: &[u8]) -> (r: Option<Key>)
    requires
        b@.len() >= 1,
        b@[0] == TAG_VERSION,
    ensures
        r matches Some(k) ==> encoded(k) == b@,
        r is None ==> forall|k: Key| tag_of(k) == TAG_VERSION ==> encoded(k) != b@,
        r is None ==> forall|key: Seq<u8>, v: u64| #[trigger] version_key(key, v) != b@,
{
    let ghost rest = b@.subrange(1, b@.len() as int);
    match read_escaped(b, 1) {
        Some((key, end)) => {
            if b.len() - end == 8 {
                let v = read_be64(b, end);
                proof {
                    lemma_be64(v, b@.subrange(end as int, end + 8));
                    lemma_unescaped_is_escaped(rest);
                    assert(b@ =~= seq![TAG_VERSION] + rest);
                    assert(encoded(Key::Version(key, v)) =~= b@);
                }
                return Some(Key::Version(key, v));
            }
        },
        None => {},
    }
    proof {
        assert forall|key: Seq<u8>, v: u64| #[trigger] version_key(key, v) != b@ by {
            if version_key(key, v) == b@ {
                lemma_be64(v, Seq::empty());
                assert(rest =~= escaped(key) + be64(v));
                lemma_unescape_escaped(key, be64(v));
            }
        }
        assert forall|k: Key| tag_of(k) == TAG_VERSION implies encoded(k) != b@ by {
            if let Key::Version(key, v) = k {
                assert(encoded(k) =~= version_key(key@, v));
            }
        }
    }
    None
}

fn decode_unversioned(b: &[u8]) -> (r: Option<Key>)
    requires
        b@.len() >= 1,
        b@[0] == TAG_UNVERSIONED,
    ensures
        r matches Some(k) ==> encoded(k) == b@,
        r is None ==> forall|k: Key| tag_of(k) == TAG_UNVERSIONED ==> encoded(k) != b@,
{
    let ghost rest = b@.subrange(1, b@.len() as int);
    match read_escaped(b, 1) {
        Some((key, end)) => {
            if end == b.len() {
                proof {
                    lemma_unescaped_is_escaped(rest);
                    assert(escaped(key@) =~= rest);
                    assert(b@ =~= seq![TAG_UNVERSIONED] + rest);
                    assert(encoded(Key::Unversioned(key)) =~= b@);
                }
                return Some(Key::Unversioned(key));
            }
        },
        None => {},
    }
    proof {
        assert forall|k: Key| tag_of(k) == TAG_UNVERSIONED implies encoded(k) != b@ by {
            if let Key::Unversioned(key) = k {
                if encoded(k) == b@ {
                    assert(rest =~= escaped(key@) + Seq::<u8>::empty());
                    lemma_unescape_escaped(key@, Seq::empty());
                }
            }
        }
    }
    None
}

} // verus!
