//! Pages: the fixed-size unit in which table data is laid out on disk. A page
//! image is the page id (4 bytes, little-endian), the slot capacity (1 byte),
//! the slot bitmap (2 bytes), then the data.
use vstd::prelude::*;
use vstd::string::StringExecFns;
use crate::text::{int_text, push_int};

verus! {

pub const BP_PAGE_SIZE: usize = 8192;

/// Slots on one page.
pub const BP_CAPACITY: u8 = 16;

pub const BP_BITMAP_SIZE: usize = 16;

pub const BP_PAGE_DATA_SIZE: usize = BP_PAGE_SIZE - 32 - 8 - 16;

/// The bytes of a page image.
pub const PAGE_IMAGE_LEN: usize = BP_PAGE_SIZE / 8;

/// The data bytes of a page.
pub const PAGE_DATA_LEN: usize = BP_PAGE_DATA_SIZE / 8;

/// A page, in memory or on disk; it holds at most sixteen records.
pub struct Page {
    pub page_id: u32,
    pub page_capacity: u8,
    pub bitmap: [u8; 2],
    pub data: Vec<u8>,
}

/// The four little-endian bytes of a `u32`.
pub open spec fn le32(n: u32) -> Seq<u8> {
    seq![n as u8, (n >> 8u32) as u8, (n >> 16u32) as u8, (n >> 24u32) as u8]
}

pub open spec fn le32_value(s: Seq<u8>) -> u32 {
    (s[0] as u32) | ((s[1] as u32) << 8u32) | ((s[2] as u32) << 16u32) | ((s[3] as u32) << 24u32)
}

/// The on-disk image of a page.
pub open spec fn page_image(p: Page) -> Seq<u8> {
    le32(p.page_id) + seq![p.page_capacity] + p.bitmap@ + p.data@
}

/// A sequence of `n` zero bytes.
pub fn zeros(n: usize) -> (r: Vec<u8>)
    ensures
        r@ == Seq::new(n as nat, |i: int| 0u8),
{
    let mut r: Vec<u8> = Vec::with_capacity(n);
    let mut i: usize = 0;
    while i < n
        invariant
            i <= n,
            r@ == Seq::new(i as nat, |j: int| 0u8),
        decreases n - i,
    {
        r.push(0u8);
        i = i + 1;
        assert(r@ =~= Seq::new(i as nat, |j: int| 0u8));
    }
    r
}

impl Page {
    pub open spec fn wf(&self) -> bool {
        self.data@.len() == PAGE_DATA_LEN
    }

    /// An empty page: id 0, full capacity, no slot used.
    pub fn new() -> (r: Page)
        ensures
            r.wf(),
            r.page_id == 0,
            r.page_capacity == BP_CAPACITY,
            r.bitmap@ == seq![0u8, 0u8],
            r.data@ == Seq::new(PAGE_DATA_LEN as nat, |i: int| 0u8),
    {
        let r = Page { page_id: 0, page_capacity: BP_CAPACITY, bitmap: [0u8, 0u8], data: zeros(PAGE_DATA_LEN) };
        assert(r.bitmap@ =~= seq![0u8, 0u8]);
        r
    }

    /// A page with every field zero.
    pub fn zeroed() -> (r: Page)
        ensures
            r.wf(),
            r.page_id == 0,
            r.page_capacity == 0,
            r.bitmap@ == seq![0u8, 0u8],
            r.data@ == Seq::new(PAGE_DATA_LEN as nat, |i: int| 0u8),
    {
        let r = Page { page_id: 0, page_capacity: 0, bitmap: [0u8, 0u8], data: zeros(PAGE_DATA_LEN) };
        assert(r.bitmap@ =~= seq![0u8, 0u8]);
        r
    }

    /// The page's on-disk image.
    pub fn as_bytes(&self) -> (r: Vec<u8>)
        requires
            self.wf(),
        ensures
            r@ == page_image(*self),
            r@.len() == PAGE_IMAGE_LEN,
    {
        let mut r: Vec<u8> = Vec::with_capacity(PAGE_IMAGE_LEN);
        let id = self.page_id;
        r.push(id as u8);
        r.push((id >> 8u32) as u8);
        r.push((id >> 16u32) as u8);
        r.push((id >> 24u32) as u8);
        r.push(self.page_capacity);
        r.push(self.bitmap[0]);
        r.push(self.bitmap[1]);
        crate::bytes::push_all(&mut r, self.data.as_slice());
        assert(self.bitmap@ =~= seq![self.bitmap[0], self.bitmap[1]]);
        assert(r@ =~= page_image(*self));
        r
    }

    /// Reads a page from its on-disk image; `None` where the image is short.
    pub fn from_bytes(b: &[u8]) -> (r: Option<Page>)
        ensures
            r is Some <==> b@.len() >= PAGE_IMAGE_LEN,
            r matches Some(p) ==> p.wf() && page_image(p) == b@.subrange(0, PAGE_IMAGE_LEN as int),
    {
        if b.len() < PAGE_IMAGE_LEN {
            return None;
        }
        let page_id = (b[0] as u32) | ((b[1] as u32) << 8u32) | ((b[2] as u32) << 16u32) | ((b[3] as u32) << 24u32);
        let data = crate::bytes::copy_range(b, 7, PAGE_IMAGE_LEN);
        let p = Page { page_id, page_capacity: b[4], bitmap: [b[5], b[6]], data };
        proof {
            let (c0, c1, c2, c3) = (b@[0], b@[1], b@[2], b@[3]);
            assert((page_id as u8 == c0 && (page_id >> 8u32) as u8 == c1 && (page_id >> 16u32) as u8 == c2
                && (page_id >> 24u32) as u8 == c3)) by (bit_vector)
                requires
                    page_id == (c0 as u32) | ((c1 as u32) << 8u32) | ((c2 as u32) << 16u32) | ((c3 as u32) << 24u32),
            ;
            assert(p.bitmap@ =~= seq![b@[5], b@[6]]);
            assert(page_image(p) =~= b@.subrange(0, PAGE_IMAGE_LEN as int));
        }
        Some(p)
    }

    /// Whether some slot of the page is free.
    pub fn is_free(&self) -> (r: bool)
        ensures
            r == (self.bitmap@[0] != 0xffu8 || self.bitmap@[1] != 0xffu8),
    {
        self.bitmap[0] != 0xffu8 || self.bitmap[1] != 0xffu8
    }
}

/// A page written out and read back is the same page.
pub proof fn lemma_page_image_round_trip(p: Page, q: Page)
    requires
        p.wf(),
        q.wf(),
        page_image(q) == page_image(p),
    ensures
        q.page_id == p.page_id,
        q.page_capacity == p.page_capacity,
        q.bitmap@ == p.bitmap@,
        q.data@ == p.data@,
{
    let (a, b) = (page_image(p), page_image(q));
    let (a0, a1, a2, a3) = (a[0], a[1], a[2], a[3]);
    let (x, y) = (p.page_id, q.page_id);
    assert(a0 == x as u8 && a1 == (x >> 8u32) as u8 && a2 == (x >> 16u32) as u8 && a3 == (x >> 24u32) as u8);
    assert(a0 == y as u8 && a1 == (y >> 8u32) as u8 && a2 == (y >> 16u32) as u8 && a3 == (y >> 24u32) as u8);
    assert(x == y) by (bit_vector)
        requires
            a0 == x as u8 && a1 == (x >> 8u32) as u8 && a2 == (x >> 16u32) as u8 && a3 == (x >> 24u32) as u8,
            a0 == y as u8 && a1 == (y >> 8u32) as u8 && a2 == (y >> 16u32) as u8 && a3 == (y >> 24u32) as u8,
    ;
    assert(a[4] == p.page_capacity && b[4] == q.page_capacity);
    assert(q.bitmap@ =~= b.subrange(5, 7));
    assert(p.bitmap@ =~= a.subrange(5, 7));
    assert(q.data@ =~= b.subrange(7, b.len() as int));
    assert(p.data@ =~= a.subrange(7, a.len() as int));
}

/// The file that holds page `page_id` of table `table_id`:
/// `tests/db/<table>/page-<page>`.
pub fn get_page_path(table_id: i32, page_id: u32) -> (r: String)
    ensures
        r@ == "tests/db/"@ + int_text(table_id as int) + "/page-"@ + int_text(page_id as int),
{
    let mut s = String::from_str("tests/db/");
    push_int(&mut s, table_id as i64);
    s.append("/page-");
    push_int(&mut s, page_id as i64);
    s
}

} // verus!
