//! A field value and its byte form.
use vstd::prelude::*;
use crate::page::le32;
use vstd::utf8::encode_utf8;

verus! {

pub enum Value {
    Int(i32),
    Char(String),
}

impl Value {
    /// The value's bytes: an integer in four little-endian bytes, a string as
    /// its UTF-8 bytes.
    pub fn as_bytes(&self) -> (r: Vec<u8>)
        ensures
            match self {
                Value::Int(v) => r@ == le32(*v as u32),
                Value::Char(s) => r@ == encode_utf8(s@),
            },
    {
        match self {
            Value::Int(v) => {
                let n = *v as u32;
                let mut r: Vec<u8> = Vec::new();
                r.push(n as u8);
                r.push((n >> 8u32) as u8);
                r.push((n >> 16u32) as u8);
                r.push((n >> 24u32) as u8);
                assert(r@ =~= le32(n));
                r
            },
            Value::Char(s) => {
                let b = s.as_str().as_bytes();
                crate::bytes::copy_range(b, 0, b.len())
            },
        }
    }
}

} // verus!
