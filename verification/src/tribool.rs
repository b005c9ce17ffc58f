//! Three-valued confidence: the asteroid classifier's verdict keeps
//! ambiguous evidence as its own outcome rather than forcing a boolean.

use vstd::prelude::*;

verus! {

/// Yes, no, or not enough evidence either way.
#[derive(Clone, Copy, PartialEq, Eq, Structural, Debug)]
pub enum Tribool {
    Yes,
    Maybe,
    No,
}

} // verus!
