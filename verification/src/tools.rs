//! The closed set of drawing tools.

use vstd::prelude::*;

verus! {

/// The mutually exclusive drawing modes. A tool is chosen explicitly (from a
/// toolbar or a shortcut) and is never inferred from the shape of a gesture.
#[derive(Clone, Copy, PartialEq, Eq, Structural, Debug)]
pub enum Tool {
    Brush,
    Eraser,
    Selection,
}

impl Default for Tool {
    /// The board starts in brush mode.
    fn default() -> (t: Tool)
        ensures
            t == Tool::Brush,
    {
        Tool::Brush
    }
}

} // verus!
