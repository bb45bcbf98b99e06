use waterkv::error::Error;
use waterkv::log::{encode_entry, KeyDir};

fn value_at(log: &[u8], loc: (u64, u32)) -> Vec<u8> {
    log[loc.0 as usize..loc.0 as usize + loc.1 as usize].to_vec()
}

#[test]
fn entry_wire_format_is_bit_exact() {
    let e = encode_entry(b"ab", Some(b"xyz"));
    assert_eq!(e, vec![0, 0, 0, 2, 0, 0, 0, 3, b'a', b'b', b'x', b'y', b'z']);
    let t = encode_entry(b"ab", None);
    assert_eq!(t, vec![0, 0, 0, 2, 0xff, 0xff, 0xff, 0xff, b'a', b'b']);
}

#[test]
fn round_trip_append_then_rebuild() {
    let mut log = Vec::new();
    log.extend(encode_entry(b"k", Some(b"v")));
    let dir = KeyDir::rebuild(&log).unwrap();
    let loc = dir.get(b"k").unwrap();
    assert_eq!(loc, (9, 1));
    assert_eq!(value_at(&log, loc), b"v".to_vec());
}

#[test]
fn overwrite_resolves_to_later_entry() {
    let mut log = Vec::new();
    log.extend(encode_entry(b"k1", Some(b"v1")));
    log.extend(encode_entry(b"k1", Some(b"v2")));
    let dir = KeyDir::rebuild(&log).unwrap();
    assert_eq!(dir.len(), 1);
    assert_eq!(value_at(&log, dir.get(b"k1").unwrap()), b"v2".to_vec());
}

#[test]
fn tombstone_removes_key() {
    let mut log = Vec::new();
    log.extend(encode_entry(b"k1", Some(b"v1")));
    log.extend(encode_entry(b"k1", None));
    let dir = KeyDir::rebuild(&log).unwrap();
    assert_eq!(dir.get(b"k1"), None);
    assert_eq!(dir.len(), 0);
}

#[test]
fn tombstone_for_unseen_key_appends_but_indexes_nothing() {
    let mut log = Vec::new();
    log.extend(encode_entry(b"a", Some(b"1")));
    let before = log.len();
    log.extend(encode_entry(b"ghost", None));
    assert_eq!(log.len(), before + 8 + 5);
    let dir = KeyDir::rebuild(&log).unwrap();
    assert_eq!(dir.len(), 1);
    assert_eq!(dir.get(b"ghost"), None);
    assert_eq!(value_at(&log, dir.get(b"a").unwrap()), b"1".to_vec());
}

#[test]
fn empty_log_rebuilds_empty() {
    let dir = KeyDir::rebuild(&[]).unwrap();
    assert_eq!(dir.len(), 0);
    assert_eq!(dir.log_len(), 0);
}

#[test]
fn value_past_end_is_corrupt() {
    let mut log = encode_entry(b"k", Some(b"value"));
    log.pop();
    assert!(matches!(KeyDir::rebuild(&log), Err(Error::CorruptLog)));
}

#[test]
fn truncated_header_is_corrupt() {
    let mut log = encode_entry(b"k", Some(b"v"));
    log.extend([0, 0, 0]);
    assert!(matches!(KeyDir::rebuild(&log), Err(Error::CorruptLog)));
}

#[test]
fn record_append_tracks_the_log() {
    let mut log = Vec::new();
    let mut dir = KeyDir::rebuild(&log).unwrap();
    let frame = encode_entry(b"key", Some(b"value"));
    log.extend(&frame);
    let loc = dir.record_append(b"key", Some(b"value"));
    assert_eq!(loc, (11, 5));
    assert_eq!(dir.get(b"key"), Some((11, 5)));
    assert_eq!(dir.log_len(), log.len() as u64);
    assert_eq!(value_at(&log, loc), b"value".to_vec());
    log.extend(encode_entry(b"key", None));
    assert_eq!(dir.record_append(b"key", None), (27, 0));
    assert_eq!(dir.get(b"key"), None);
    let rebuilt = KeyDir::rebuild(&log).unwrap();
    assert_eq!(rebuilt.len(), 0);
    assert_eq!(rebuilt.log_len(), dir.log_len());
}

#[test]
fn status_counts_live_and_garbage_bytes() {
    let mut log = Vec::new();
    log.extend(encode_entry(b"k1", Some(b"v1")));
    log.extend(encode_entry(b"k1", Some(b"value2")));
    log.extend(encode_entry(b"k2", Some(b"x")));
    log.extend(encode_entry(b"k3", Some(b"y")));
    log.extend(encode_entry(b"k3", None));
    let dir = KeyDir::rebuild(&log).unwrap();
    let s = dir.status(log.len() as u64);
    assert_eq!(s.name, "bitcask");
    assert_eq!(s.keys, 2);
    assert_eq!(s.size, (2 + 6) + (2 + 1));
    assert_eq!(s.total_disk_size, log.len() as u64);
    assert_eq!(s.live_disk_size, 11 + 16);
    assert_eq!(s.garbage_disk_size, log.len() as u64 - 27);
}
