//! The append-only log: the bit-exact framing of its entries, replaying it
//! into a key directory, and keeping that directory in step with appends.
//!
//! An entry is `key_len` (4 bytes, big-endian unsigned), `value_len` (4 bytes,
//! big-endian signed, `-1` for a tombstone), the key bytes, then the value
//! bytes unless the entry is a tombstone.
use vstd::prelude::*;
use crate::bytes::{be32, be32_value, lemma_be32, read_be32, push_be32, push_all, copy_range};
use crate::error::{Error, Result};
use crate::ordmap::ByteMap;
use crate::engine::Status;

verus! {

/// The value-length field of a tombstone: `-1` as a signed 32-bit integer.
pub const TOMBSTONE: u32 = 0xFFFF_FFFF;

/// The largest value length the signed length field can hold.
pub const MAX_VALUE_LEN: u32 = 0x7FFF_FFFF;

/// Where a value lies in the log: its offset and its length.
pub type Location = (u64, u32);

/// What an optional byte slice holds.
pub open spec fn opt_bytes(v: Option<&[u8]>) -> Option<Seq<u8>> {
    match v {
        Some(s) => Some(s@),
        None => None,
    }
}

/// The bytes of one entry.
pub open spec fn frame(key: Seq<u8>, value: Option<Seq<u8>>) -> Seq<u8> {
    match value {
        Some(v) => be32(key.len() as u32) + be32(v.len() as u32) + key + v,
        None => be32(key.len() as u32) + be32(TOMBSTONE) + key,
    }
}

/// Whether the lengths of an entry fit its length fields.
pub open spec fn frame_fits(key: Seq<u8>, value: Option<Seq<u8>>) -> bool {
    &&& key.len() <= u32::MAX
    &&& value matches Some(v) ==> v.len() <= MAX_VALUE_LEN
}

/// The directory after one more entry written at offset `pos`: the key points
/// at the value region, or is gone for a tombstone.
pub open spec fn after_entry(
    dir: Map<Seq<u8>, Location>,
    pos: nat,
    key: Seq<u8>,
    value: Option<Seq<u8>>,
) -> Map<Seq<u8>, Location> {
    match value {
        Some(v) => dir.insert(key, ((pos + 8 + key.len()) as u64, v.len() as u32)),
        None => dir.remove(key),
    }
}

/// Where the value of an entry written at offset `pos` lies: after its two
/// length fields and its key, for the value's length (0 for a tombstone).
pub open spec fn value_region(pos: nat, key: Seq<u8>, value: Option<Seq<u8>>) -> Location {
    ((pos + 8 + key.len()) as u64, match value {
        Some(v) => v.len() as u32,
        None => 0u32,
    })
}

/// Replays the log from offset `pos` onto `dir`; `None` where an entry's
/// framing runs past the end of the log.
pub open spec fn replay_from(log: Seq<u8>, pos: nat, dir: Map<Seq<u8>, Location>) -> Option<
    Map<Seq<u8>, Location>,
>
    decreases log.len() - pos,
{
    let p = pos as int;
    if p >= log.len() {
        Some(dir)
    } else if p + 8 > log.len() {
        None
    } else {
        let klen = be32_value(log.subrange(p, p + 4)) as int;
        let raw = be32_value(log.subrange(p + 4, p + 8));
        let kend = p + 8 + klen;
        if kend > log.len() {
            None
        } else {
            let key = log.subrange(p + 8, kend);
            if raw == TOMBSTONE {
                replay_from(log, kend as nat, dir.remove(key))
            } else if raw > MAX_VALUE_LEN || kend + raw > log.len() {
                None
            } else {
                replay_from(log, (kend + raw) as nat, dir.insert(key, (kend as u64, raw)))
            }
        }
    }
}

/// The key directory that the whole log replays to, if its framing holds.
pub open spec fn replay(log: Seq<u8>) -> Option<Map<Seq<u8>, Location>> {
    replay_from(log, 0, Map::empty())
}

/// The bytes of the log at a location.
pub open spec fn bytes_at(log: Seq<u8>, loc: Location) -> Seq<u8> {
    log.subrange(loc.0 as int, loc.0 + loc.1)
}

proof fn lemma_replay_extend(log: Seq<u8>, x: Seq<u8>, pos: nat, dir: Map<Seq<u8>, Location>)
    requires
        pos <= log.len(),
        replay_from(log, pos, dir) is Some,
    ensures
        replay_from(log + x, pos, dir) == replay_from(log + x, log.len(), replay_from(log, pos, dir)->0),
    decreases log.len() - pos,
{
    let lx = log + x;
    let p = pos as int;
    if p < log.len() {
        assert(lx.subrange(p, p + 4) =~= log.subrange(p, p + 4));
        assert(lx.subrange(p + 4, p + 8) =~= log.subrange(p + 4, p + 8));
        let klen = be32_value(log.subrange(p, p + 4)) as int;
        let raw = be32_value(log.subrange(p + 4, p + 8));
        let kend = p + 8 + klen;
        assert(lx.subrange(p + 8, kend) =~= log.subrange(p + 8, kend));
        if raw == TOMBSTONE {
            lemma_replay_extend(log, x, kend as nat, dir.remove(log.subrange(p + 8, kend)));
        } else {
            lemma_replay_extend(
                log,
                x,
                (kend + raw) as nat,
                dir.insert(log.subrange(p + 8, kend), (kend as u64, raw)),
            );
        }
    }
}

proof fn lemma_replay_frame(
    log: Seq<u8>,
    key: Seq<u8>,
    value: Option<Seq<u8>>,
    dir: Map<Seq<u8>, Location>,
)
    requires
        frame_fits(key, value),
    ensures
        replay_from(log + frame(key, value), log.len(), dir) == Some(
            after_entry(dir, log.len(), key, value),
        ),
{
    let f = frame(key, value);
    let lx = log + f;
    let pos = log.len() as int;
    let raw: u32 = match value {
        Some(v) => v.len() as u32,
        None => TOMBSTONE,
    };
    lemma_be32(key.len() as u32, Seq::empty());
    lemma_be32(raw, Seq::empty());
    assert(lx.subrange(pos, pos + 4) =~= be32(key.len() as u32));
    assert(lx.subrange(pos + 4, pos + 8) =~= be32(raw));
    let kend = pos + 8 + key.len();
    assert(lx.subrange(pos + 8, kend) =~= key);
    assert(be32_value(lx.subrange(pos, pos + 4)) == key.len());
    assert(be32_value(lx.subrange(pos + 4, pos + 8)) == raw);
    match value {
        Some(v) => {
            assert(lx.len() == kend + v.len());
            assert(raw != TOMBSTONE);
            let d2 = dir.insert(key, (kend as u64, raw));
            assert(replay_from(lx, (kend + raw) as nat, d2) == Some(d2));
        },
        None => {
            assert(lx.len() == kend);
            assert(replay_from(lx, kend as nat, dir.remove(key)) == Some(dir.remove(key)));
        },
    }
}

/// Appending one entry to a log that replays extends the replay by that entry.
pub proof fn lemma_replay_append(log: Seq<u8>, key: Seq<u8>, value: Option<Seq<u8>>)
    requires
        replay(log) is Some,
        frame_fits(key, value),
    ensures
        replay(log + frame(key, value)) == Some(
            after_entry(replay(log)->0, log.len(), key, value),
        ),
{
    lemma_replay_extend(log, frame(key, value), 0, Map::empty());
    lemma_replay_frame(log, key, value, replay(log)->0);
}

/// The value region of an appended entry holds the value.
proof fn lemma_frame_value(log: Seq<u8>, key: Seq<u8>, v: Seq<u8>)
    requires
        frame_fits(key, Some(v)),
        log.len() + 8 + key.len() + v.len() <= u64::MAX,
    ensures
        bytes_at(
            log + frame(key, Some(v)),
            ((log.len() + 8 + key.len()) as u64, v.len() as u32),
        ) == v,
{
    let lx = log + frame(key, Some(v));
    let off = log.len() + 8 + key.len() as int;
    assert(lx.subrange(off, off + v.len()) =~= v);
}

/// Round trip: after appending `(k, v)` to a log that replays, the rebuilt
/// directory holds `k`, and the log bytes it points at are `v`.
pub proof fn lemma_round_trip(log: Seq<u8>, k: Seq<u8>, v: Seq<u8>)
    requires
        replay(log) is Some,
        frame_fits(k, Some(v)),
        log.len() + 8 + k.len() + v.len() <= u64::MAX,
    ensures
        ({
            let l2 = log + frame(k, Some(v));
            &&& replay(l2) is Some
            &&& replay(l2)->0.contains_key(k)
            &&& bytes_at(l2, replay(l2)->0[k]) == v
        }),
{
    lemma_replay_append(log, k, Some(v));
    lemma_frame_value(log, k, v);
}

/// Overwrite: after appending `(k, v1)` then `(k, v2)`, the rebuilt directory
/// points `k` at `v2`.
pub proof fn lemma_overwrite(log: Seq<u8>, k: Seq<u8>, v1: Seq<u8>, v2: Seq<u8>)
    requires
        replay(log) is Some,
        frame_fits(k, Some(v1)),
        frame_fits(k, Some(v2)),
        log.len() + 16 + 2 * k.len() + v1.len() + v2.len() <= u64::MAX,
    ensures
        ({
            let l3 = log + frame(k, Some(v1)) + frame(k, Some(v2));
            &&& replay(l3) is Some
            &&& replay(l3)->0.contains_key(k)
            &&& bytes_at(l3, replay(l3)->0[k]) == v2
        }),
{
    let l2 = log + frame(k, Some(v1));
    lemma_replay_append(log, k, Some(v1));
    lemma_round_trip(l2, k, v2);
}

/// Tombstones: a tombstone after `(k, v)` leaves `k` out of the rebuilt
/// directory; a tombstone for a key the directory lacks still adds its bytes
/// to the log and leaves the directory as it was.
pub proof fn lemma_tombstone(log: Seq<u8>, k: Seq<u8>, v: Seq<u8>)
    requires
        replay(log) is Some,
        frame_fits(k, Some(v)),
    ensures
        ({
            let l3 = log + frame(k, Some(v)) + frame(k, None);
            &&& replay(l3) is Some
            &&& !replay(l3)->0.contains_key(k)
        }),
        !replay(log)->0.contains_key(k) ==> {
            let l2 = log + frame(k, None);
            &&& l2.len() == log.len() + 8 + k.len()
            &&& replay(l2) == replay(log)
        },
{
    let l2 = log + frame(k, Some(v));
    lemma_replay_append(log, k, Some(v));
    lemma_replay_append(l2, k, None);
    lemma_replay_append(log, k, None);
    if !replay(log)->0.contains_key(k) {
        assert(replay(log)->0.remove(k) =~= replay(log)->0);
    }
}

/// Encodes one entry.
pub fn encode_entry(key: &[u8], value: Option<&[u8]>) -> (r: Vec<u8>)
    requires
        frame_fits(key@, opt_bytes(value)),
    ensures
        r@ == frame(key@, opt_bytes(value)),
{
    let mut r: Vec<u8> = Vec::new();
    push_be32(&mut r, key.len() as u32);
    match value {
        Some(v) => {
            push_be32(&mut r, v.len() as u32);
            push_all(&mut r, key);
            push_all(&mut r, v);
        },
        None => {
            push_be32(&mut r, TOMBSTONE);
            push_all(&mut r, key);
        },
    }
    r
}

/// The bytes that the live keys and values take, summed over `keys`.
pub open spec fn live_bytes(keys: Seq<Seq<u8>>, dir: Map<Seq<u8>, Location>) -> int
    decreases keys.len(),
{
    if keys.len() == 0 {
        0
    } else {
        live_bytes(keys.drop_last(), dir) + keys.last().len() + dir[keys.last()].1
    }
}

/// `n` capped at the largest `u64`.
pub open spec fn capped(n: int) -> u64 {
    if n > u64::MAX {
        u64::MAX
    } else {
        n as u64
    }
}

/// The in-memory index of the log: for each live key, where its latest value
/// lies. It mirrors exactly what the log holds.
pub struct KeyDir {
    dir: ByteMap<Location>,
    end: u64,
    log: Ghost<Seq<u8>>,
}

impl KeyDir {
    /// The bytes of the log this directory mirrors.
    pub closed spec fn log(&self) -> Seq<u8> {
        self.log@
    }

    /// The directory as a map from key to location.
    pub closed spec fn dir(&self) -> Map<Seq<u8>, Location> {
        self.dir@
    }

    pub closed spec fn wf(&self) -> bool {
        &&& self.dir.wf()
        &&& replay(self.log@) == Some(self.dir@)
        &&& self.end == self.log@.len()
    }

    /// The directory is what its log replays to.
    pub proof fn lemma_mirrors_log(&self)
        requires
            self.wf(),
        ensures
            replay(self.log()) == Some(self.dir()),
    {
    }

    /// Rebuilds the directory by replaying the whole log; fails where an
    /// entry's framing runs past the end of the log.
    pub fn rebuild(log: &[u8]) -> (r: Result<KeyDir>)
        ensures
            r is Err <==> replay(log@) is None,
            r matches Err(e) ==> e == Error::CorruptLog,
            r matches Ok(d) ==> d.wf() && d.log() == log@ && d.dir() == replay(log@)->0,
    {
        let mut dir: ByteMap<Location> = ByteMap::new();
        let mut pos: usize = 0;
        while pos < log.len()
            invariant
                pos <= log@.len(),
                dir.wf(),
                replay(log@) == replay_from(log@, pos as nat, dir@),
            decreases log@.len() - pos,
        {
            if log.len() - pos < 8 {
                return Err(Error::CorruptLog);
            }
            let klen = read_be32(log, pos);
            let raw = read_be32(log, pos + 4);
            let kstart = pos + 8;
            if klen as usize > log.len() - kstart {
                return Err(Error::CorruptLog);
            }
            let kend = kstart + klen as usize;
            let key = copy_range(log, kstart, kend);
            if raw == TOMBSTONE {
                dir.remove(key.as_slice());
                pos = kend;
            } else if raw > MAX_VALUE_LEN || raw as usize > log.len() - kend {
                return Err(Error::CorruptLog);
            } else {
                dir.insert(key, (kend as u64, raw));
                pos = kend + raw as usize;
            }
        }
        Ok(KeyDir { dir, end: log.len() as u64, log: Ghost(log@) })
    }

    /// Where the latest value of `key` lies, if the key is live.
    pub fn get(&self, key: &[u8]) -> (r: Option<Location>)
        requires
            self.wf(),
        ensures
            r == self.dir().get(key@) ,
    {
        match self.dir.get(key) {
            Some(loc) => Some(*loc),
            None => None,
        }
    }

    /// The live keys, ascending.
    pub closed spec fn keys(&self) -> Seq<Seq<u8>> {
        self.dir.ordered_keys()
    }

    /// The status of a log of `total_disk_size` bytes that this directory
    /// indexes: its live keys, the bytes they and their values take, and
    /// what the rest of the file holds. Sums past the largest `u64` are
    /// capped there.
    pub fn status(&self, total_disk_size: u64) -> (r: Status)
        requires
            self.wf(),
        ensures
            r.name@ == "bitcask"@,
            r.keys == self.dir().len(),
            r.size == capped(live_bytes(self.keys(), self.dir())),
            r.total_disk_size == total_disk_size,
            r.live_disk_size == capped(live_bytes(self.keys(), self.dir()) + 8 * self.dir().len()),
            r.garbage_disk_size == if total_disk_size >= r.live_disk_size { (total_disk_size - r.live_disk_size) as u64 } else { 0 },
    {
        proof {
            self.dir.lemma_ordered_keys();
        }
        let ghost ks = self.dir.ordered_keys();
        let n = self.dir.len();
        let mut size: u64 = 0;
        let mut i: usize = 0;
        while i < n
            invariant
                self.wf(),
                ks == self.dir.ordered_keys(),
                n == ks.len(),
                forall|j: int| 0 <= j < ks.len() ==> self.dir@.contains_key(#[trigger] ks[j]),
                i <= n,
                size == capped(live_bytes(ks.take(i as int), self.dir@)),
            decreases n - i,
        {
            let k = self.dir.key_at(i);
            let loc = self.dir.value_at(i);
            let step = k.len() as u64;
            let step2 = loc.1 as u64;
            proof {
                assert(ks.take(i + 1).drop_last() =~= ks.take(i as int));
                assert(ks.take(i + 1).last() == ks[i as int]);
                assert(live_bytes(ks.take(i as int), self.dir@) >= 0) by {
                    lemma_live_bytes_nonneg(ks.take(i as int), self.dir@);
                }
            }
            size = if size > u64::MAX - step { u64::MAX } else { size + step };
            size = if size > u64::MAX - step2 { u64::MAX } else { size + step2 };
            i = i + 1;
        }
        assert(ks.take(n as int) =~= ks);
        proof {
            lemma_live_bytes_nonneg(ks, self.dir@);
        }
        let keys = n as u64;
        let live_disk_size = if keys > (u64::MAX - size) / 8 { u64::MAX } else { size + 8 * keys };
        let garbage_disk_size = if total_disk_size >= live_disk_size { total_disk_size - live_disk_size } else { 0 };
        Status {
            name: String::from_str("bitcask"),
            keys,
            size,
            total_disk_size,
            live_disk_size,
            garbage_disk_size,
        }
    }

    /// The live keys that `sel` selects, ascending.
    pub fn select(&self, sel: &crate::engine::Selector) -> (r: Vec<Vec<u8>>)
        requires
            self.wf(),
        ensures
            crate::ordmap::keys_ascend(r@.map_values(|k: Vec<u8>| k@)),
            forall|i: int| 0 <= i < r@.len() ==> crate::engine::selects(*sel, #[trigger] r@[i]@) && self.dir().contains_key(r@[i]@),
            forall|k: Seq<u8>| #[trigger] self.dir().contains_key(k) && crate::engine::selects(*sel, k) ==> exists|i: int| 0 <= i < r@.len() && #[trigger] r@[i]@ == k,
    {
        self.dir.select_keys(sel)
    }

    /// The number of live keys.
    pub fn len(&self) -> (r: usize)
        requires
            self.wf(),
        ensures
            r == self.dir().len(),
    {
        self.dir.len()
    }

    /// The length of the log this directory mirrors.
    pub fn log_len(&self) -> (r: u64)
        requires
            self.wf(),
        ensures
            r == self.log().len(),
    {
        self.end
    }

    /// Records that the entry for `key` and `value` was written at the end of
    /// the log; returns where its value lies.
    pub fn record_append(&mut self, key: &[u8], value: Option<&[u8]>) -> (r: Location)
        requires
            old(self).wf(),
            frame_fits(key@, opt_bytes(value)),
            old(self).log().len() + frame(key@, opt_bytes(value)).len() <= u64::MAX,
        ensures
            final(self).wf(),
            final(self).log() == old(self).log() + frame(key@, opt_bytes(value)),
            final(self).dir() == after_entry(old(self).dir(), old(self).log().len(), key@, opt_bytes(value)),
            r == value_region(old(self).log().len(), key@, opt_bytes(value)),
            bytes_at(final(self).log(), r) == match opt_bytes(value) {
                Some(v) => v,
                None => Seq::<u8>::empty(),
            },
    {
        proof {
            lemma_replay_append(self.log@, key@, opt_bytes(value));
            lemma_be32(key@.len() as u32, Seq::empty());
        }
        let klen = key.len() as u64;
        let ghost old_log = self.log@;
        let k = copy_range(key, 0, key.len());
        assert(key@.subrange(0, key@.len() as int) =~= key@);
        let r = match value {
            Some(v) => {
                let off = self.end + 8 + klen;
                self.dir.insert(k, (off, v.len() as u32));
                self.end = off + v.len() as u64;
                proof {
                    lemma_frame_value(old_log, key@, v@);
                }
                (off, v.len() as u32)
            },
            None => {
                self.dir.remove(k.as_slice());
                self.end = self.end + 8 + klen;
                (self.end, 0u32)
            },
        };
        self.log = Ghost(old_log + frame(key@, opt_bytes(value)));
        r
    }
}

proof fn lemma_live_bytes_nonneg(keys: Seq<Seq<u8>>, dir: Map<Seq<u8>, Location>)
    ensures
        live_bytes(keys, dir) >= 0,
    decreases keys.len(),
{
    if keys.len() > 0 {
        lemma_live_bytes_nonneg(keys.drop_last(), dir);
    }
}

} // verus!
