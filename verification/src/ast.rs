//! Plain data of the surface-syntax tree the parser collaborator
//! produces; the parser itself is an external collaborator.

use vstd::prelude::*;

verus! {

/// A schema identifier as written in the surface syntax.
#[derive(Debug, Clone)]
pub struct Id(pub String);

/// A by-name reference to another declaration.
#[derive(Debug)]
pub struct Reference<T> {
    pub to: String,
    pub marker: core::marker::PhantomData<T>,
}

/// All declared versions of one item, by version number.
#[derive(Debug)]
pub struct Versioned<T> {
    pub versions: Vec<(u32, T)>,
}

/// Why surface syntax was rejected.
#[derive(Debug)]
pub enum Error {
    ParseError,
    UnsupportedDeclaration,
    UnsupportedStatement,
    EnumMemberIdMustBeIdentifier,
    EnumMemberCannotHaveInitializer,
}

/// Collects parsed modules; the parsing itself is done by the external
/// surface-syntax collaborator, which hands sources in.
#[derive(Debug)]
pub struct Parser {
    pub modules: Vec<String>,
}

impl Parser {
    pub fn new() -> (r: Self)
        ensures
            r.modules@.len() == 0,
    {
        Parser { modules: Vec::new() }
    }
}

} // verus!
