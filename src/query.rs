//! The syntax tree of a small query language: nested selections of fields
//! and related arrays, filtered by equality predicates.
use vstd::prelude::*;

verus! {

/// A literal that a predicate compares against.
pub enum Value<'a> {
    Int32(i32),
    String(&'a str),
}

/// A selected item: a field by name, or a related array with the commands
/// that shape it.
pub enum Query<'a> {
    Field(&'a str),
    Array(&'a str, &'a [&'a Command<'a>]),
}

/// A step applied to an array: the items to select, or a filter.
pub enum Command<'a> {
    Select(&'a [&'a Query<'a>]),
    Where(&'a Op<'a>),
}

/// A filter: equality of a field with a literal, or a conjunction.
pub enum Op<'a> {
    Eq(&'a str, Value<'a>),
    And(&'a [&'a Op<'a>]),
}

} // verus!
