//! Plain configuration data of the command-line collaborator.

use vstd::prelude::*;

use crate::skeletor::Style;

verus! {

/// Module layout style as selected on the command line.
#[derive(Debug, Copy, Clone, PartialEq, Eq, Structural)]
pub enum LibStyle {
    Mod,
    Module,
}

impl LibStyle {
    pub fn as_str(self) -> (r: &'static str)
        ensures
            self == LibStyle::Mod <==> r@ == "mod"@,
    {
        proof {
            reveal_strlit("mod");
            reveal_strlit("module");
            assert("mod"@.len() == 3 && "module"@.len() == 6);
        }
        match self {
            LibStyle::Mod => "mod",
            LibStyle::Module => "module",
        }
    }

    pub fn into_style(self) -> (r: Style)
        ensures
            self == LibStyle::Mod <==> r == Style::Mod,
    {
        match self {
            LibStyle::Mod => Style::Mod,
            LibStyle::Module => Style::Module,
        }
    }
}

/// Why the command failed.
#[derive(Debug)]
pub enum Error {
    Url,
    Http,
    Traverse,
    Io,
    Serde,
}

} // verus!
