use vstd::prelude::*;
use crate::value::Value;

verus! {

/// A response body: a value (or nothing), or a list of keys.
#[derive(Debug, PartialEq)]
pub enum Respond {
    Value(Option<Value>),
    Array(Vec<String>),
}

/// A request to the store.
#[derive(Debug, PartialEq)]
pub enum Request {
    Put(String, Value),
    Get(String),
    Del(String),
    List,
}

} // verus!
