//! Paths into entity property data: borrowed, owned, or linked segments.

use vstd::prelude::*;

verus! {

/// One step into structured property data: a named field or an index.
#[derive(Debug, Clone)]
pub enum PathSegment {
    Field(String),
    Index(usize),
}

/// A link to the rest of a path, borrowed or owned.
pub enum Next<'a> {
    Borrowed(&'a EntityPath<'a>),
    Owned(Box<EntityPath<'a>>),
}

impl<'a> Next<'a> {
    pub fn as_ref(&self) -> (r: &EntityPath<'a>)
        ensures
            self is Borrowed ==> r == self->Borrowed_0,
    {
        match self {
            Next::Borrowed(path) => path,
            Next::Owned(path) => path,
        }
    }
}

/// A path cell: one segment and an optional continuation.
pub struct LinkedPathSegment<'a> {
    pub this: &'a PathSegment,
    pub next: Option<Next<'a>>,
}

impl<'a> LinkedPathSegment<'a> {
    pub fn new(this: &'a PathSegment, next: Option<Next<'a>>) -> (r: Self)
        ensures
            r.this == this,
    {
        LinkedPathSegment { this, next }
    }
}

/// A path into entity data, in whichever representation the caller has.
pub enum EntityPath<'a> {
    Borrowed(&'a [PathSegment]),
    Owned(Vec<PathSegment>),
    Linked(LinkedPathSegment<'a>),
}

impl<'a> EntityPath<'a> {
    pub fn new(path: &'a [PathSegment]) -> (r: Self)
        ensures
            r is Borrowed && r->Borrowed_0 == path,
    {
        EntityPath::Borrowed(path)
    }

    pub fn new_owned(path: Vec<PathSegment>) -> (r: Self)
        ensures
            r is Owned && r->Owned_0 == path,
    {
        EntityPath::Owned(path)
    }

    pub fn new_linked(path: LinkedPathSegment<'a>) -> (r: Self)
        ensures
            r is Linked,
    {
        EntityPath::Linked(path)
    }
}

/// Walks a path segment by segment.
pub enum EntityPathIterator<'a> {
    Slice(&'a [PathSegment], usize),
    Linked(&'a LinkedPathSegment<'a>),
    Empty,
}

impl<'a> EntityPathIterator<'a> {
    /// The next segment, stepping the iterator; `None` once exhausted.
    /// Over a slice the segments come out in order; over linked cells the
    /// cell's own segment comes first, then the continuation's.
    pub fn next(&mut self) -> (r: Option<&'a PathSegment>)
        ensures
            (*old(self)) is Empty ==> r is None && (*final (self)) is Empty,
            forall|s: &'a [PathSegment], i: usize|
                *old(self) == EntityPathIterator::Slice(s, i) && i < s@.len() ==> r == Some(
                    &s[i as int],
                ) && *final (self) == EntityPathIterator::<'a>::Slice(s, (i + 1) as usize),
            forall|s: &'a [PathSegment], i: usize|
                *old(self) == EntityPathIterator::Slice(s, i) && i >= s@.len() ==> r is None && (
                *final (self)) is Empty,
            forall|n: &'a LinkedPathSegment<'a>|
                *old(self) == EntityPathIterator::Linked(n) ==> r == Some(n.this) && (n.next
                    is None ==> (*final (self)) is Empty),
    {
        match self {
            EntityPathIterator::Slice(slice, at) => {
                let i = *at;
                if i < slice.len() {
                    let item = &slice[i];
                    *self = EntityPathIterator::Slice(slice, i + 1);
                    Some(item)
                } else {
                    *self = EntityPathIterator::Empty;
                    None
                }
            },
            EntityPathIterator::Linked(node) => {
                let item = node.this;
                let rest: &Option<Next<'a>> = &node.next;
                match rest {
                    Some(next) => {
                        *self = match next.as_ref() {
                            EntityPath::Borrowed(slice) => EntityPathIterator::Slice(slice, 0),
                            EntityPath::Owned(owned) => EntityPathIterator::Slice(
                                owned.as_slice(),
                                0,
                            ),
                            EntityPath::Linked(linked) => EntityPathIterator::Linked(linked),
                        };
                    },
                    None => {
                        *self = EntityPathIterator::Empty;
                    },
                }
                Some(item)
            },
            EntityPathIterator::Empty => None,
        }
    }
}

} // verus!
