//! Records: a row's bytes and where it lies, by page and slot.
use vstd::prelude::*;

verus! {

/// A record's place: its page and its slot on that page.
#[derive(Debug, PartialEq, Eq, Structural, Clone, Copy)]
pub struct RID {
    page_num: u32,
    solt_num: u32,
}

impl RID {
    pub closed spec fn page_spec(&self) -> u32 {
        self.page_num
    }

    pub closed spec fn slot_spec(&self) -> u32 {
        self.solt_num
    }

    pub fn new(page_num: u32, slot_num: u32) -> (r: RID)
        ensures
            r.page_spec() == page_num,
            r.slot_spec() == slot_num,
    {
        RID { page_num, solt_num: slot_num }
    }

    pub fn page_num(&self) -> (r: u32)
        ensures
            r == self.page_spec(),
    {
        self.page_num
    }

    pub fn slot_num(&self) -> (r: u32)
        ensures
            r == self.slot_spec(),
    {
        self.solt_num
    }
}

pub struct Record {
    rid: RID,
    data: Vec<u8>,
}

impl Record {
    pub closed spec fn rid_spec(&self) -> RID {
        self.rid
    }

    pub closed spec fn data_spec(&self) -> Seq<u8> {
        self.data@
    }

    pub fn new(rid: RID, data: Vec<u8>) -> (r: Record)
        ensures
            r.rid_spec() == rid,
            r.data_spec() == data@,
    {
        Record { rid, data }
    }

    pub fn set_data(&mut self, data: Vec<u8>)
        ensures
            final(self).data_spec() == data@,
            final(self).rid_spec() == old(self).rid_spec(),
    {
        self.data = data;
    }

    pub fn data(&self) -> (r: &Vec<u8>)
        ensures
            r@ == self.data_spec(),
    {
        &self.data
    }

    pub fn set_rid(&mut self, rid: &RID)
        ensures
            final(self).rid_spec() == *rid,
            final(self).data_spec() == old(self).data_spec(),
    {
        self.rid.page_num = rid.page_num;
        self.rid.solt_num = rid.solt_num;
    }

    pub fn rid(&self) -> (r: &RID)
        ensures
            *r == self.rid_spec(),
    {
        &self.rid
    }
}

} // verus!
