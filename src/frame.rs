//! Frames: the in-memory form of a page, with a dirty flag and a pin count
//! that keeps a frame in use from being evicted.
use vstd::prelude::*;
use crate::error::{Error, Result};
use crate::page::Page;
use crate::text::{bool_text, int_text, push_bool, push_int};
use vstd::string::StringExecFns;

verus! {

/// Names a frame: a table and a page of it.
#[derive(Debug, PartialEq, Eq, Structural, Clone, Copy, Hash)]
pub struct FrameId {
    pub table_id: i32,
    pub page_num: u32,
}

/// The description of a frame id.
pub open spec fn frame_id_text(table_id: i32, page_num: u32) -> Seq<char> {
    "table_id: "@ + int_text(table_id as int) + ", page_num: "@ + int_text(page_num as int)
}

impl FrameId {
    /// Describes the id: `table_id: <table>, page_num: <page>`.
    pub fn to_string(&self) -> (r: String)
        ensures
            r@ == frame_id_text(self.table_id, self.page_num),
    {
        let mut s = String::from_str("table_id: ");
        push_int(&mut s, self.table_id as i64);
        s.append(", page_num: ");
        push_int(&mut s, self.page_num as i64);
        s
    }

    pub fn new(table_id: i32, page_num: u32) -> (r: FrameId)
        ensures
            r.table_id == table_id,
            r.page_num == page_num,
    {
        FrameId { table_id, page_num }
    }
}

pub struct Frame {
    dirty: bool,
    pin_count: u32,
    table_id: i32,
    page: Page,
}

impl Frame {
    pub closed spec fn dirty_spec(&self) -> bool {
        self.dirty
    }

    pub closed spec fn pins(&self) -> u32 {
        self.pin_count
    }

    pub closed spec fn table_spec(&self) -> i32 {
        self.table_id
    }

    pub closed spec fn page_spec(&self) -> Page {
        self.page
    }

    pub open spec fn wf(&self) -> bool {
        self.page_spec().wf()
    }

    /// A clean, unpinned frame over an empty page, belonging to no table.
    pub fn new() -> (r: Frame)
        ensures
            r.wf(),
            !r.dirty_spec(),
            r.pins() == 0,
            r.table_spec() == -1,
            r.page_spec().page_id == 0,
            r.page_spec().page_capacity == crate::page::BP_CAPACITY,
            r.page_spec().bitmap@ == seq![0u8, 0u8],
            r.page_spec().data@ == Seq::new(crate::page::PAGE_DATA_LEN as nat, |i: int| 0u8),
    {
        Frame { dirty: false, pin_count: 0, table_id: -1, page: Page::new() }
    }

    /// A clean, unpinned frame over a page read from disk.
    pub fn from_page(table_id: i32, page: Page) -> (r: Frame)
        requires
            page.wf(),
        ensures
            r.wf(),
            !r.dirty_spec(),
            r.pins() == 0,
            r.table_spec() == table_id,
            r.page_spec() == page,
    {
        Frame { dirty: false, pin_count: 0, table_id, page }
    }

    pub fn table_id(&self) -> (r: i32)
        ensures
            r == self.table_spec(),
    {
        self.table_id
    }

    pub fn set_table_id(&mut self, table_id: i32)
        ensures
            final(self).table_spec() == table_id,
            final(self).page_spec() == old(self).page_spec(),
            final(self).dirty_spec() == old(self).dirty_spec(),
            final(self).pins() == old(self).pins(),
            final(self).wf() == old(self).wf(),
    {
        self.table_id = table_id;
    }

    pub fn page(&self) -> (r: &Page)
        ensures
            *r == self.page_spec(),
    {
        &self.page
    }

    pub fn page_id(&self) -> (r: u32)
        ensures
            r == self.page_spec().page_id,
    {
        self.page.page_id
    }

    pub fn set_page_id(&mut self, page_id: u32)
        ensures
            final(self).page_spec().page_id == page_id,
            final(self).page_spec().data == old(self).page_spec().data,
            final(self).page_spec().bitmap == old(self).page_spec().bitmap,
            final(self).page_spec().page_capacity == old(self).page_spec().page_capacity,
            final(self).table_spec() == old(self).table_spec(),
            final(self).dirty_spec() == old(self).dirty_spec(),
            final(self).pins() == old(self).pins(),
            final(self).wf() == old(self).wf(),
    {
        self.page.page_id = page_id;
    }

    pub fn get_frame_id(&self) -> (r: FrameId)
        ensures
            r.table_id == self.table_spec(),
            r.page_num == self.page_spec().page_id,
    {
        FrameId { table_id: self.table_id, page_num: self.page.page_id }
    }

    pub fn mark_dirty(&mut self)
        ensures
            final(self).dirty_spec(),
            final(self).table_spec() == old(self).table_spec(),
            final(self).page_spec() == old(self).page_spec(),
            final(self).pins() == old(self).pins(),
            final(self).wf() == old(self).wf(),
    {
        self.dirty = true;
    }

    pub fn clear_dirty(&mut self)
        ensures
            !final(self).dirty_spec(),
            final(self).table_spec() == old(self).table_spec(),
            final(self).page_spec() == old(self).page_spec(),
            final(self).pins() == old(self).pins(),
            final(self).wf() == old(self).wf(),
    {
        self.dirty = false;
    }

    pub fn dirty(&self) -> (r: bool)
        ensures
            r == self.dirty_spec(),
    {
        self.dirty
    }

    /// The page's data bytes.
    pub fn data(&self) -> (r: &Vec<u8>)
        ensures
            *r == self.page_spec().data,
    {
        &self.page.data
    }

    pub fn pin_count(&self) -> (r: u32)
        ensures
            r == self.pins(),
    {
        self.pin_count
    }

    /// Whether some slot of the frame's page is free.
    pub fn is_free(&self) -> (r: bool)
        ensures
            r == (self.page_spec().bitmap@[0] != 0xffu8 || self.page_spec().bitmap@[1] != 0xffu8),
    {
        self.page.is_free()
    }

    /// Resets the page to all zeros.
    pub fn clear_page(&mut self)
        ensures
            final(self).wf(),
            final(self).page_spec().page_id == 0,
            final(self).page_spec().page_capacity == 0,
            final(self).page_spec().bitmap@ == seq![0u8, 0u8],
            final(self).page_spec().data@ == Seq::new(crate::page::PAGE_DATA_LEN as nat, |i: int| 0u8),
            final(self).table_spec() == old(self).table_spec(),
            final(self).dirty_spec() == old(self).dirty_spec(),
            final(self).pins() == old(self).pins(),
    {
        self.page = Page::zeroed();
    }

    /// Whether nothing pins the frame, so that it may be evicted.
    pub fn can_purge(&self) -> (r: bool)
        ensures
            r == (self.pins() == 0),
    {
        self.pin_count == 0
    }

    pub fn pin_frame(&mut self)
        requires
            old(self).pins() < u32::MAX,
        ensures
            final(self).pins() == old(self).pins() + 1,
            final(self).table_spec() == old(self).table_spec(),
            final(self).page_spec() == old(self).page_spec(),
            final(self).dirty_spec() == old(self).dirty_spec(),
            final(self).wf() == old(self).wf(),
    {
        self.pin_count = self.pin_count + 1;
    }

    /// Describes the frame: its id, dirty flag, pins, table and page.
    pub fn to_string(&self) -> (r: String)
        ensures
            r@ == "frame id: "@ + frame_id_text(self.table_spec(), self.page_spec().page_id) + ", dirty: "@
                + bool_text(self.dirty_spec()) + ", pin count: "@ + int_text(self.pins() as int) + ", table id: "@
                + int_text(self.table_spec() as int) + ", page id: "@ + int_text(self.page_spec().page_id as int),
    {
        let mut s = String::from_str("frame id: ");
        let id = self.get_frame_id().to_string();
        s.append(id.as_str());
        s.append(", dirty: ");
        push_bool(&mut s, self.dirty);
        s.append(", pin count: ");
        push_int(&mut s, self.pin_count as i64);
        s.append(", table id: ");
        push_int(&mut s, self.table_id as i64);
        s.append(", page id: ");
        push_int(&mut s, self.page.page_id as i64);
        s
    }

    /// Releases one pin; fails on an unpinned frame. Returns the pins left.
    pub fn unpin_frame(&mut self) -> (r: Result<u32>)
        ensures
            old(self).pins() == 0 ==> r == Err::<u32, Error>(Error::NotPinned) && final(self).pins() == 0,
            old(self).pins() > 0 ==> r == Ok::<u32, Error>((old(self).pins() - 1) as u32) && final(self).pins() == old(self).pins() - 1,
            final(self).table_spec() == old(self).table_spec(),
            final(self).page_spec() == old(self).page_spec(),
            final(self).dirty_spec() == old(self).dirty_spec(),
            final(self).wf() == old(self).wf(),
    {
        if self.pin_count == 0 {
            return Err(Error::NotPinned);
        }
        self.pin_count = self.pin_count - 1;
        Ok(self.pin_count)
    }
}

/// Which frame to evict, given the pin counts of the cached frames from
/// least to most recently used: the least recently used unpinned one.
pub fn eviction_victim(pins: &Vec<u32>) -> (r: Option<usize>)
    ensures
        r matches Some(i) ==> i < pins@.len() && pins@[i as int] == 0 && forall|j: int| 0 <= j < i ==> pins@[j] != 0,
        r is None ==> forall|j: int| 0 <= j < pins@.len() ==> pins@[j] != 0,
{
    let mut i: usize = 0;
    while i < pins.len()
        invariant
            i <= pins@.len(),
            forall|j: int| 0 <= j < i ==> pins@[j] != 0,
        decreases pins@.len() - i,
    {
        if pins[i] == 0 {
            return Some(i);
        }
        i = i + 1;
    }
    None
}

} // verus!
