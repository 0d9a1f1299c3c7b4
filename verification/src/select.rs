//! Building blocks of the entity-instance selection surface: paths into
//! JSON-shaped data and comparison conditions.

use vstd::prelude::*;

verus! {

/// Which side of a link an entity sits on.
#[derive(Debug, Copy, Clone, PartialEq, Eq, Structural)]
pub enum LinkEdge {
    Left,
    Right,
}

/// A comparison between a selected value and a parameter.
#[derive(Debug, Copy, Clone, PartialEq, Eq, Structural)]
pub enum Condition {
    Equals,
    NotEquals,
    LessThan,
    LessThanOrEquals,
    GreaterThan,
    GreaterThanOrEquals,
    Contains,
    StartsWith,
    EndsWith,
}

/// One step into JSON-shaped data.
#[derive(Debug, Clone)]
pub enum Segment {
    Field(String),
    Index(usize),
}

/// A path of segments into JSON-shaped data.
#[derive(Debug)]
pub struct JsonPath(pub Vec<Segment>);

impl JsonPath {
    pub fn new() -> (r: Self)
        ensures
            r.0@.len() == 0,
    {
        JsonPath(Vec::new())
    }

    pub fn from_slice(segments: Vec<Segment>) -> (r: Self)
        ensures
            r.0@ == segments@,
    {
        JsonPath(segments)
    }

    pub fn then(self, segment: Segment) -> (r: Self)
        ensures
            r.0@ == self.0@.push(segment),
    {
        let JsonPath(mut v) = self;
        v.push(segment);
        JsonPath(v)
    }
}

} // verus!
