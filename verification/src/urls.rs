//! Borrowed, statically-known versioned URLs.

use vstd::prelude::*;

verus! {

/// A borrowed base URL, assumed valid by construction.
#[derive(Debug, Copy, Clone)]
pub struct BaseUrlRef<'a>(pub &'a str);

impl<'a> BaseUrlRef<'a> {
    pub fn new_unchecked(url: &'a str) -> (r: Self)
        ensures
            r.0@ == url@,
    {
        BaseUrlRef(url)
    }

    pub fn as_str(&self) -> (r: &'a str)
        ensures
            r@ == self.0@,
    {
        self.0
    }
}

/// A borrowed versioned URL: base plus version.
#[derive(Debug, Copy, Clone)]
pub struct VersionedUrlRef<'a> {
    pub base: BaseUrlRef<'a>,
    pub version: u32,
}

impl<'a> VersionedUrlRef<'a> {
    pub fn new_unchecked(base: BaseUrlRef<'a>, version: u32) -> (r: Self)
        ensures
            r.base.0@ == base.0@,
            r.version == version,
    {
        VersionedUrlRef { base, version }
    }

    pub fn base(&self) -> (r: BaseUrlRef<'a>)
        ensures
            r.0@ == self.base.0@,
    {
        self.base
    }

    pub fn version(&self) -> (r: u32)
        ensures
            r == self.version,
    {
        self.version
    }
}

} // verus!
