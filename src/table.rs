//! Tables and their metadata.
use vstd::prelude::*;
use crate::error::Result;

verus! {

pub struct TableMeta {
    table_id: i32,
    name: String,
    fields: Vec<String>,
    indexes: Vec<String>,
    record_size: i32,
}

impl TableMeta {
    pub closed spec fn id_spec(&self) -> i32 {
        self.table_id
    }

    pub closed spec fn name_spec(&self) -> Seq<char> {
        self.name@
    }

    pub closed spec fn field_count(&self) -> nat {
        self.fields@.len()
    }

    /// Metadata of a table not created yet: no id, no name, no fields.
    pub fn new() -> (r: TableMeta)
        ensures
            r.id_spec() == -1,
            r.name_spec() == Seq::<char>::empty(),
            r.field_count() == 0,
    {
        TableMeta { table_id: -1, name: String::new(), fields: Vec::new(), indexes: Vec::new(), record_size: 0 }
    }

    pub fn table_id(&self) -> (r: i32)
        ensures
            r == self.id_spec(),
    {
        self.table_id
    }
}

pub struct Table {
    base_dir: String,
    table_meta: TableMeta,
    indexes: Vec<String>,
}

impl Table {
    pub closed spec fn meta_spec(&self) -> TableMeta {
        self.table_meta
    }

    /// A table with empty metadata.
    pub fn new() -> (r: Result<Table>)
        ensures
            r matches Ok(t) && t.meta_spec().id_spec() == -1 && t.meta_spec().field_count() == 0,
    {
        Ok(Table { base_dir: String::new(), table_meta: TableMeta::new(), indexes: Vec::new() })
    }

    pub fn table_id(&self) -> (r: i32)
        ensures
            r == self.meta_spec().id_spec(),
    {
        self.table_meta.table_id()
    }

    pub fn table_meta(&self) -> (r: &TableMeta)
        ensures
            *r == self.meta_spec(),
    {
        &self.table_meta
    }
}

} // verus!
