use vstd::prelude::*;

use crate::geom::Rect;

verus! {

/// Where the board lies in the image, in pixels.
#[derive(Debug)]
pub struct AnalyzeGridBounds {
    pub bounds: Rect<usize>,
}

} // verus!
