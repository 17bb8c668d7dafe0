//! The anchor point of an image.
use vstd::prelude::*;

verus! {

/// Origin of the coordinate system; `C` is the representation of a fraction
/// of the image's size.
#[derive(Clone, Copy, Debug, PartialEq)]
pub enum Origin<C> {
    /// Bottom left of the image or viewbox.
    BottomLeft,
    /// Bottom right of the image or viewbox.
    BottomRight,
    /// Center of the image or viewbox.
    Center,
    /// Top left of the image or viewbox, the default.
    TopLeft,
    /// Top right of the image or viewbox.
    TopRight,
    /// Custom origin, as fractions of the size: top left is (0, 0), bottom
    /// right is (1, 1).
    Custom(C, C),
}

impl<C> Default for Origin<C> {
    fn default() -> (r: Self)
        ensures
            r is TopLeft,
    {
        Origin::TopLeft
    }
}

impl<C: Copy> Origin<C> {
    /// The fraction of the size by which every vertex of the mesh itself is
    /// moved: a custom origin's own coordinates, and `(zero, zero)` for every
    /// named origin, which is applied to the whole object instead.
    pub fn get_relative_offset(&self, zero: C) -> (r: (C, C))
        ensures
            r == match *self {
                Origin::Custom(x, y) => (x, y),
                _ => (zero, zero),
            },
    {
        match self {
            Origin::Custom(x, y) => (*x, *y),
            _ => (zero, zero),
        }
    }
}

} // verus!
