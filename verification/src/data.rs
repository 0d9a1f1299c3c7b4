//! Wrappers for the built-in data-type values carried by entities.

use vstd::prelude::*;

use crate::path::EntityPath;

verus! {

/// An owned text value.
#[derive(Debug, Clone)]
pub struct Text(pub String);

impl Text {
    pub fn new(value: String) -> (r: Self)
        ensures
            r.0@ == value@,
    {
        Text(value)
    }
}

/// A borrowed text value.
#[derive(Debug, Copy, Clone)]
pub struct TextRef<'a>(pub &'a str);

impl<'a> TextRef<'a> {
    pub fn as_str(&self) -> (r: &'a str)
        ensures
            r@ == self.0@,
    {
        self.0
    }
}

/// An owned text value under mutation; the verifier keeps the buffer
/// owned rather than behind a mutable borrow.
#[derive(Debug)]
pub struct TextMut(pub String);

/// The trait for value kinds that can turn a borrowed form back into an
/// owned one.
pub trait TypeRef: Sized {
    type Owned;

    fn into_owned(self) -> Self::Owned;
}

impl<'a> TypeRef for TextRef<'a> {
    type Owned = Text;

    fn into_owned(self) -> (r: Text)
        ensures
            r.0@ == self.0@,
    {
        Text(self.0.to_owned())
    }
}

/// An owned boolean value.
#[derive(Debug, Copy, Clone, PartialEq, Eq, Structural)]
pub struct Boolean(pub bool);

/// A boolean value under mutation.
#[derive(Debug)]
pub struct BooleanMut(pub bool);

/// The null value.
#[derive(Debug, Copy, Clone, PartialEq, Eq, Structural)]
pub struct Null;

/// The always-empty list value.
#[derive(Debug, Copy, Clone, PartialEq, Eq, Structural)]
pub struct EmptyList;

/// Data-type values sit at a leaf: the path below them is empty.
#[derive(Debug, Copy, Clone)]
pub struct DataTypePath;

impl DataTypePath {
    pub fn into_path(self) -> (r: EntityPath<'static>)
        ensures
            r is Borrowed,
    {
        let empty: &'static [crate::path::PathSegment] = &[];
        EntityPath::new(empty)
    }
}

} // verus!
