//! Colour themes of the viewer.
use vstd::prelude::*;

verus! {

/// The colour schemes the viewer can draw with.
#[derive(Debug, Clone, Copy, PartialEq, Eq, Structural)]
pub enum Theme {
    Light,
    Dark,
    Solarized,
}

} // verus!
