//! Text labels for blocks.
//!
//! A block's label shows the block's name inside a text box derived from the
//! block's size. The box is laid out scaled up and the renderer scales it
//! back down, which keeps the text crisp; only the text and the box bounds
//! are modeled here.

use vstd::prelude::*;

verus! {

/// How many times the block's size the label's text box is: the reciprocal of
/// the renderer's label scaling factor.
pub const LABEL_SCALE: i64 = 5;

/// The data of one block label: the displayed text and the bounds of the text
/// box it is laid out in.
#[derive(Debug)]
pub struct BlockLabelBundle {
    pub text: String,
    pub bounds_x: i64,
    pub bounds_y: i64,
}

impl BlockLabelBundle {
    /// A label for a block with the given name and size: the text is the name
    /// and the text box is the block's size scaled up by `LABEL_SCALE`.
    pub fn new(name: String, size_x: i32, size_y: i32) -> (r: BlockLabelBundle)
        ensures
            r.text == name,
            r.bounds_x == size_x as int * (LABEL_SCALE as int),
            r.bounds_y == size_y as int * (LABEL_SCALE as int),
    {
        BlockLabelBundle {
            text: name,
            bounds_x: (size_x as i64) * LABEL_SCALE,
            bounds_y: (size_y as i64) * LABEL_SCALE,
        }
    }
}

} // verus!
