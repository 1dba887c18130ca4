use vstd::prelude::*;

verus! {

/// A stored value: text, a signed 128-bit integer, a boolean, an ordered list of
/// values, or an ordered list of named values (names may repeat; order is kept).
#[derive(Debug, PartialEq)]
pub enum Value {
    Text(String),
    Number(i128),
    Boolean(bool),
    Array(Vec<Value>),
    Object(Vec<(String, Value)>),
}

} // verus!
