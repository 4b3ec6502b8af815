//! The state of the image-creation window.
use vstd::prelude::*;

verus! {

/// An image-creation window: its identity and whether it is open.
#[derive(Clone, Copy, Debug, PartialEq, Eq, Structural, Default)]
pub struct ImageCreator {
    pub id: usize,
    pub open: bool,
}

impl ImageCreator {
    /// A new, open window with identity zero.
    pub fn new() -> (r: Self)
        ensures
            r.open,
            r.id == 0,
    {
        ImageCreator { id: 0, open: true }
    }
}

} // verus!
