use std::cell::RefCell;
use std::rc::Rc;

use waterkv::error::Error;
use waterkv::frame::{eviction_victim, Frame, FrameId};
use waterkv::header::BPFilerHeader;
use waterkv::keys::Key;
use waterkv::page::{get_page_path, Page};
use waterkv::record::{Record, RID};
use waterkv::sql::{attr_type_from_string, column_attr, is_primary_key, AttrType, ColumnKind};
use waterkv::table::{Table, TableMeta};
use waterkv::value::Value;

#[test]
fn test_rc_refcell() {
    let frame = Rc::new(RefCell::new(Frame::new()));
    frame.borrow_mut().pin_frame();
    assert_eq!(frame.borrow().pin_count(), 1);
}

#[test]
fn test_table() {
    let table = Table::new();

    assert!(table.is_ok());
}

#[test]
fn table_meta_starts_unassigned() {
    assert_eq!(TableMeta::new().table_id(), -1);
    assert_eq!(Table::new().unwrap().table_id(), -1);
}

#[test]
fn unpin_below_zero_fails() {
    let mut f = Frame::new();
    assert_eq!(f.unpin_frame(), Err(Error::NotPinned));
    f.pin_frame();
    f.pin_frame();
    assert!(!f.can_purge());
    assert_eq!(f.unpin_frame(), Ok(1));
    assert_eq!(f.unpin_frame(), Ok(0));
    assert!(f.can_purge());
}

#[test]
fn frame_ids_and_flags() {
    let mut f = Frame::new();
    f.set_table_id(3);
    f.set_page_id(7);
    assert_eq!(f.get_frame_id(), FrameId::new(3, 7));
    assert!(!f.dirty());
    f.mark_dirty();
    assert!(f.dirty());
    f.clear_dirty();
    assert!(!f.dirty());
    assert!(f.is_free());
    assert_eq!(f.page().page_capacity, 16);
    assert_eq!(f.page().bitmap, [0, 0]);
    assert_eq!(f.data().len(), 1017);
    f.clear_page();
    assert_eq!(f.page().page_capacity, 0);
    assert_eq!(f.page_id(), 0);
}

#[test]
fn page_image_round_trip() {
    let mut page = Page::new();
    page.page_id = 0x01020304;
    page.bitmap = [0xff, 0x0f];
    page.data[0] = 9;
    let bytes = page.as_bytes();
    assert_eq!(bytes.len(), 1024);
    assert_eq!(&bytes[..7], &[4, 3, 2, 1, 16, 0xff, 0x0f]);
    let back = Page::from_bytes(&bytes).unwrap();
    assert_eq!(back.page_id, 0x01020304);
    assert_eq!(back.page_capacity, 16);
    assert_eq!(back.bitmap, [0xff, 0x0f]);
    assert_eq!(back.data, page.data);
    assert!(back.is_free());
    assert!(Page::from_bytes(&bytes[..1023]).is_none());
}

#[test]
fn full_bitmap_is_not_free() {
    let mut page = Page::new();
    page.bitmap = [0xff, 0xff];
    assert!(!page.is_free());
}

#[test]
fn records_keep_rid_and_data() {
    let mut r = Record::new(RID::new(1, 2), vec![1, 2, 3]);
    assert_eq!(r.data(), &vec![1, 2, 3]);
    r.set_data(vec![4]);
    r.set_rid(&RID::new(5, 6));
    assert_eq!(*r.rid(), RID::new(5, 6));
    assert_eq!(r.rid().page_num(), 5);
    assert_eq!(r.rid().slot_num(), 6);
    assert_eq!(r.data(), &vec![4]);
}

#[test]
fn column_kinds_map_to_attributes() {
    assert_eq!(column_attr(ColumnKind::Int), (AttrType::INTS, 4));
    assert_eq!(column_attr(ColumnKind::Boolean), (AttrType::BOOLEANS, 1));
    assert_eq!(column_attr(ColumnKind::Varchar(Some(20))), (AttrType::CHARS, 20));
    assert_eq!(column_attr(ColumnKind::String(None)), (AttrType::CHARS, 65535));
    assert_eq!(column_attr(ColumnKind::Double), (AttrType::FLOATS, 4));
    assert_eq!(column_attr(ColumnKind::Other), (AttrType::UNDEFINED, 1));
    assert!(is_primary_key(&vec![false, true]));
    assert!(!is_primary_key(&vec![true, false]));
    assert!(!is_primary_key(&vec![]));
}

#[test]
fn key_encoding_round_trips_and_rejects_garbage() {
    let keys = vec![
        Key::NextVersion,
        Key::TxnActive(7),
        Key::TxnWrite(7, b"a\x00b".to_vec()),
        Key::Version(b"a\x00b".to_vec(), 9),
        Key::Unversioned(b"".to_vec()),
    ];
    for k in &keys {
        let e = k.encode();
        let d = Key::decode(&e).unwrap();
        assert_eq!(d.encode(), e);
    }
    assert_eq!(Key::Version(b"a\x00".to_vec(), 1).encode(), vec![4, b'a', 0, 0xff, 0, 0, 0, 0, 0, 0, 0, 0, 0, 1]);
    assert_eq!(Key::TxnActive(1).encode(), vec![2, 0, 0, 0, 0, 0, 0, 0, 1]);
    assert!(matches!(Key::decode(&[]), Err(Error::Encoding)));
    assert!(matches!(Key::decode(&[9]), Err(Error::Encoding)));
    assert!(matches!(Key::decode(&[2, 0, 0]), Err(Error::Encoding)));
    assert!(matches!(Key::decode(&[4, b'a', 0, 7]), Err(Error::Encoding)));
    assert!(matches!(Key::decode(&[5, b'a', 0, 0, 1]), Err(Error::Encoding)));
}

#[test]
fn test_int() {
    let expected = 100;

    let value = Value::Int(expected);
    let bytes = value.as_bytes();

    assert_eq!(expected, i32::from_le_bytes([bytes[0], bytes[1], bytes[2], bytes[3]]))
}

#[test]
fn test_char() {
    let expected = "hello, value".to_string();

    let value = Value::Char(expected.clone());
    let bytes = value.as_bytes();
    let s = String::from_utf8(bytes).unwrap();

    assert_eq!(expected, s);
}

#[test]
fn negative_int_bytes() {
    assert_eq!(Value::Int(-2).as_bytes(), vec![0xfe, 0xff, 0xff, 0xff]);
}

#[test]
fn descriptions_spell_out_fields() {
    assert_eq!(FrameId::new(-3, 12).to_string(), "table_id: -3, page_num: 12");
    let mut f = Frame::new();
    f.set_page_id(4);
    f.pin_frame();
    f.mark_dirty();
    assert_eq!(
        f.to_string(),
        "frame id: table_id: -1, page_num: 4, dirty: true, pin count: 1, table id: -1, page id: 4"
    );
    let h = BPFilerHeader { page_count: 1050, allocated_pages: 0, bitmap: ['1'] };
    assert_eq!(h.to_string(), "page count: 1050, allocated count: 0");
}

#[test]
fn attr_type_names_round_trip() {
    for t in [AttrType::CHARS, AttrType::INTS, AttrType::FLOATS, AttrType::BOOLEANS] {
        assert_eq!(attr_type_from_string(t.attr_type_to_string()), t);
    }
    assert_eq!(AttrType::UNDEFINED.attr_type_to_string(), "undefined");
    assert_eq!(attr_type_from_string("varchar"), AttrType::UNDEFINED);
    assert_eq!(attr_type_from_string("ints"), AttrType::INTS);
}

#[test]
fn eviction_picks_least_recent_unpinned() {
    assert_eq!(eviction_victim(&vec![2, 0, 0]), Some(1));
    assert_eq!(eviction_victim(&vec![0]), Some(0));
    assert_eq!(eviction_victim(&vec![1, 3]), None);
    assert_eq!(eviction_victim(&vec![]), None);
}

#[test]
fn page_paths_name_table_and_page() {
    assert_eq!(get_page_path(1, 1), "tests/db/1/page-1");
    assert_eq!(get_page_path(-1, 20), "tests/db/-1/page-20");
}
