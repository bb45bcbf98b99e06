//! The header page of a buffer-pool file.
use vstd::prelude::*;
use vstd::string::StringExecFns;
use crate::text::{int_text, push_int};

verus! {

/// The metadata in the first page of a buffer-pool file.
pub struct BPFilerHeader {
    /// The pages in the file.
    pub page_count: u32,
    /// The pages allocated so far.
    pub allocated_pages: u32,
    /// The page allocation bitmap; the header page itself is always marked.
    pub bitmap: [char; 1],
}

impl BPFilerHeader {
    /// Describes the header: `page count: <n>, allocated count: <m>`.
    pub fn to_string(&self) -> (r: String)
        ensures
            r@ == "page count: "@ + int_text(self.page_count as int) + ", allocated count: "@ + int_text(
                self.allocated_pages as int,
            ),
    {
        let mut s = String::from_str("page count: ");
        push_int(&mut s, self.page_count as i64);
        s.append(", allocated count: ");
        push_int(&mut s, self.allocated_pages as i64);
        s
    }
}

} // verus!
