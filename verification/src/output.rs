//! Where generated code for a schema goes.

use vstd::prelude::*;

use crate::name::Path;

verus! {

/// An output file: the rendered path components, and the typed path they
/// came from.
#[derive(Debug)]
pub struct OutputPath {
    pub segments: Vec<String>,
    pub typed: Path,
}

/// Why processing a batch of schemas failed.
#[derive(Debug)]
pub enum Error {
    /// A schema value was malformed.
    Parse,
    /// The reference graph could not be analyzed.
    DependencyAnalysis,
}

} // verus!
