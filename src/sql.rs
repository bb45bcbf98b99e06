//! The nodes that a parsed SQL statement becomes, and the rules that map a
//! declared column type to an attribute type and length.
use vstd::prelude::*;
use vstd::utf8::encode_utf8_decode_utf8;

verus! {

pub enum SqlCommandFlag {
    ScfSowTables,
    ScfCreateTable,
    ScfSelect,
    ScfInsert,
}

pub enum CompOp {
    EqualTO,
    LessEQUAL,
    NotEQUAL,
    LessTHAN,
    GreatEqual,
    GreatThan,
    NoOp,
}

/// The type of an attribute.
#[derive(Debug, PartialEq, Eq, Structural, Clone, Copy)]
pub enum AttrType {
    /// Not defined (one byte by default).
    UNDEFINED,
    /// A string (65535 bytes by default).
    CHARS,
    /// A four-byte integer.
    INTS,
    /// A four-byte float.
    FLOATS,
    /// A one-byte boolean.
    BOOLEANS,
}

/// The name of an attribute type.
pub open spec fn attr_name(t: AttrType) -> Seq<char> {
    match t {
        AttrType::UNDEFINED => "undefined"@,
        AttrType::CHARS => "chars"@,
        AttrType::INTS => "ints"@,
        AttrType::FLOATS => "floats"@,
        AttrType::BOOLEANS => "booleans"@,
    }
}

/// The attribute type a name denotes; any other text is undefined.
pub open spec fn attr_named(s: Seq<char>) -> AttrType {
    if s == "chars"@ {
        AttrType::CHARS
    } else if s == "ints"@ {
        AttrType::INTS
    } else if s == "floats"@ {
        AttrType::FLOATS
    } else if s == "booleans"@ {
        AttrType::BOOLEANS
    } else {
        AttrType::UNDEFINED
    }
}

impl AttrType {
    pub fn attr_type_to_string(&self) -> (r: &'static str)
        ensures
            r@ == attr_name(*self),
    {
        match self {
            AttrType::UNDEFINED => "undefined",
            AttrType::CHARS => "chars",
            AttrType::INTS => "ints",
            AttrType::FLOATS => "floats",
            AttrType::BOOLEANS => "booleans",
        }
    }
}

/// Whether two strings are equal.
fn same_text(a: &str, b: &str) -> (r: bool)
    ensures
        r == (a@ == b@),
{
    let r = crate::bytes::bytes_eq(a.as_bytes(), b.as_bytes());
    proof {
        encode_utf8_decode_utf8(a@);
        encode_utf8_decode_utf8(b@);
    }
    r
}

pub fn attr_type_from_string(s: &str) -> (r: AttrType)
    ensures
        r == attr_named(s@),
{
    if same_text(s, "chars") {
        AttrType::CHARS
    } else if same_text(s, "ints") {
        AttrType::INTS
    } else if same_text(s, "floats") {
        AttrType::FLOATS
    } else if same_text(s, "booleans") {
        AttrType::BOOLEANS
    } else {
        AttrType::UNDEFINED
    }
}

/// A column type as a statement declares it, with its length where it gives one.
#[derive(Debug, PartialEq, Eq, Structural, Clone, Copy)]
pub enum ColumnKind {
    SmallInt,
    Int,
    BigInt,
    Boolean,
    Text,
    Varchar(Option<u64>),
    Float,
    Double,
    Decimal,
    String(Option<u64>),
    Other,
}

/// The length of a string column that declares none.
pub const DEFAULT_CHARS_LEN: u64 = 65535;

/// The attribute type and length of a column of the given kind.
pub open spec fn attr_of(kind: ColumnKind) -> (AttrType, u64) {
    match kind {
        ColumnKind::SmallInt | ColumnKind::Int | ColumnKind::BigInt => (AttrType::INTS, 4),
        ColumnKind::Boolean => (AttrType::BOOLEANS, 1),
        ColumnKind::Text => (AttrType::CHARS, DEFAULT_CHARS_LEN),
        ColumnKind::Varchar(len) | ColumnKind::String(len) => (AttrType::CHARS, match len {
            Some(n) => n,
            None => DEFAULT_CHARS_LEN,
        }),
        ColumnKind::Float | ColumnKind::Double | ColumnKind::Decimal => (AttrType::FLOATS, 4),
        ColumnKind::Other => (AttrType::UNDEFINED, 1),
    }
}

pub fn column_attr(kind: ColumnKind) -> (r: (AttrType, u64))
    ensures
        r == attr_of(kind),
{
    match kind {
        ColumnKind::SmallInt | ColumnKind::Int | ColumnKind::BigInt => (AttrType::INTS, 4),
        ColumnKind::Boolean => (AttrType::BOOLEANS, 1),
        ColumnKind::Text => (AttrType::CHARS, DEFAULT_CHARS_LEN),
        ColumnKind::Varchar(len) | ColumnKind::String(len) => (AttrType::CHARS, match len {
            Some(n) => n,
            None => DEFAULT_CHARS_LEN,
        }),
        ColumnKind::Float | ColumnKind::Double | ColumnKind::Decimal => (AttrType::FLOATS, 4),
        ColumnKind::Other => (AttrType::UNDEFINED, 1),
    }
}

/// Whether a column is the primary key, given for each of its options in
/// order whether it declares a primary key: the last option decides.
pub fn is_primary_key(options: &Vec<bool>) -> (r: bool)
    ensures
        r == (options@.len() > 0 && options@.last()),
{
    if options.len() == 0 {
        false
    } else {
        options[options.len() - 1]
    }
}

pub struct AttrInfoSqlNode {
    pub attr_type: AttrType,
    pub name: String,
    pub length: usize,
    pub is_pk: bool,
}

impl AttrInfoSqlNode {
    pub fn new(attr_type: AttrType, name: String, length: usize, is_pk: bool) -> (r: Self)
        ensures
            r.attr_type == attr_type,
            r.name == name,
            r.length == length,
            r.is_pk == is_pk,
    {
        AttrInfoSqlNode { attr_type, name, length, is_pk }
    }
}

pub struct RelAttrSqlNode {
    pub relation_name: String,
    pub attribute_name: String,
}

pub struct CreateTableSqlNode {
    pub relation_name: String,
    pub attr_infos: Vec<AttrInfoSqlNode>,
}

impl CreateTableSqlNode {
    pub fn new(relation_name: String, attr_infos: Vec<AttrInfoSqlNode>) -> (r: Self)
        ensures
            r.relation_name == relation_name,
            r.attr_infos == attr_infos,
    {
        CreateTableSqlNode { relation_name, attr_infos }
    }
}

/// Every attribute type but the undefined one reads back from its name.
pub proof fn lemma_attr_name_round_trip(t: AttrType)
    requires
        t != AttrType::UNDEFINED,
    ensures
        attr_named(attr_name(t)) == t,
{
    reveal_strlit("chars");
    reveal_strlit("ints");
    reveal_strlit("floats");
    reveal_strlit("booleans");
    assert("chars"@.len() == 5 && "ints"@.len() == 4 && "floats"@.len() == 6 && "booleans"@.len() == 8);
}

} // verus!
