//! Which palette a pixel is painted from.

use vstd::prelude::*;

verus! {

/// The palette of a pixel.
#[derive(Clone, Copy, Debug, PartialEq, Eq, Structural)]
pub enum Paint {
    /// The pixel reached no root: it is painted black.
    Unconverged,
    /// The pixel reached the last root of the list, the backdrop of the
    /// picture: it is painted in the fixed backdrop colour.
    Backdrop,
    /// The pixel reached the root with the given index: its hue is that
    /// index's place on the colour wheel.
    Hue(usize),
}

/// The palette for a root index in a picture of `roots` roots.
pub open spec fn paint_for(color: usize, roots: usize) -> Paint {
    if color == roots {
        Paint::Unconverged
    } else if color + 1 == roots {
        Paint::Backdrop
    } else {
        Paint::Hue(color)
    }
}

/// Picks the palette of a pixel from its root index.
pub fn paint_of(color: usize, roots: usize) -> (paint: Paint)
    ensures
        paint == paint_for(color, roots),
{
    if color == roots {
        Paint::Unconverged
    } else if roots > 0 && color == roots - 1 {
        Paint::Backdrop
    } else {
        Paint::Hue(color)
    }
}

} // verus!
