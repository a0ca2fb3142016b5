use vstd::prelude::*;

verus! {

/// Mathematical model of a protocol value.
pub enum Value {
    Simple(Seq<u8>),
    Error(Seq<u8>),
    Integer(int),
    /// `None` is the absent bulk string.
    Bulk(Option<Seq<u8>>),
    /// `None` is the null array, which differs from the empty one.
    Array(Option<Seq<Value>>),
}

/// A value of the wire protocol.
#[derive(Debug, PartialEq, Eq)]
pub enum RespValue {
    /// A line of text without a line terminator.
    SimpleString(Vec<u8>),
    /// A line of text that signals an error.
    Error(Vec<u8>),
    Integer(i64),
    BulkString(Option<Vec<u8>>),
    Array(Option<Vec<RespValue>>),
}

impl RespValue {
    pub open spec fn view(self) -> Value
        decreases self,
    {
        match self {
            RespValue::SimpleString(s) => Value::Simple(s@),
            RespValue::Error(s) => Value::Error(s@),
            RespValue::Integer(n) => Value::Integer(n as int),
            RespValue::BulkString(b) => match b {
                Some(s) => Value::Bulk(Some(s@)),
                None => Value::Bulk(None),
            },
            RespValue::Array(a) => match a {
                Some(v) => Value::Array(Some(Seq::new(v@.len(), |i: int|
                    if 0 <= i < v@.len() { v@[i].view() } else { Value::Integer(0) }))),
                None => Value::Array(None),
            },
        }
    }
}

/// The models of a sequence of values, element by element.
pub open spec fn views(v: Seq<RespValue>) -> Seq<Value> {
    Seq::new(v.len(), |i: int| v[i]@)
}

} // verus!
