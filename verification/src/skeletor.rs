//! Plain configuration data of the project-scaffolding collaborator.

use vstd::prelude::*;

use crate::name::ModuleFlavor;

verus! {

/// Module layout style of the generated package.
#[derive(Debug, Copy, Clone, PartialEq, Eq, Structural)]
pub enum Style {
    Mod,
    Module,
}

impl Style {
    pub fn into_module_flavor(self) -> (r: ModuleFlavor)
        ensures
            self == Style::Mod <==> r == ModuleFlavor::ModRs,
    {
        match self {
            Style::Mod => ModuleFlavor::ModRs,
            Style::Module => ModuleFlavor::ModuleRs,
        }
    }
}

/// Where the generated package takes its runtime support library from.
#[derive(Debug)]
pub enum TurbineVersion {
    Path(String),
    Git { url: String, rev: Option<String>, branch: Option<String>, tag: Option<String> },
    Workspace,
    Version(String),
}

/// Why scaffolding failed.
#[derive(Debug)]
pub enum Error {
    Codegen,
    Cargo,
    Path,
    Io,
    Format,
}

} // verus!
