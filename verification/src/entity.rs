//! Plain data carried alongside entity instances.

use vstd::prelude::*;

verus! {

/// The ordering of a link entity relative to its endpoints, in either
/// direction, where the caller recorded one.
#[derive(Debug, Copy, Clone, PartialEq, Eq, Structural)]
pub struct EntityLinkOrder {
    pub left_to_right: Option<i32>,
    pub right_to_left: Option<i32>,
}

} // verus!
