//! Layout results and the per-node result cache.

use vstd::prelude::*;
use crate::geometry::{Point, Size};
use crate::number::Number;

verus! {

/// The resolved geometry of one node.  `location` is relative to the
/// parent's content-box origin; `order` preserves the original child
/// index when items are reordered for display.
#[derive(Clone, Copy, Debug, PartialEq, Eq, Structural)]
pub struct Layout {
    pub order: u32,
    pub size: Size<i64>,
    pub location: Point<i64>,
}

/// The zero layout a fresh node carries before any pass has run.
pub open spec fn empty_layout() -> Layout {
    Layout { order: 0, size: Size { width: 0, height: 0 }, location: Point { x: 0, y: 0 } }
}

impl Layout {
    /// A zeroed layout.
    pub fn new() -> (r: Layout)
        ensures
            r == empty_layout(),
    {
        Layout { order: 0, size: Size { width: 0, height: 0 }, location: Point { x: 0, y: 0 } }
    }
}

/// A cached layout result.  It may be reused only while the node is
/// clean and both recorded input constraints match the requested ones
/// exactly.
#[derive(Clone, Copy, Debug, PartialEq, Eq, Structural)]
pub struct Cache {
    pub node_size: Size<Number>,
    pub parent_size: Size<Number>,
    pub perform_layout: bool,
    pub layout: Layout,
}

} // verus!
