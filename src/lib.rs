//! Turns vector paths into triangle meshes: the verified core.
//!
//! The library normalises a path's segment stream into a canonical event
//! sequence, decides which fill and stroke descriptors a path yields, and merges
//! the vertex/index buffers of many tessellated descriptors into one mesh buffer.
//! Coordinates, colours and transforms are carried as opaque values, so every
//! rule here holds whatever the numeric representation of a point is.
use vstd::prelude::*;

pub mod buffer;
pub mod descriptor;
pub mod origin;
pub mod path;

verus! {

/// A conversion of the library's own, where `From` cannot be implemented.
pub trait Convert<T>: Sized {
    /// Converts the value to `T`.
    fn convert(self) -> T;
}

impl<'a, W: Copy> Convert<(descriptor::Rgba8, descriptor::DrawType<W>)> for &'a descriptor::Stroke<W> {
    fn convert(self) -> (r: (descriptor::Rgba8, descriptor::DrawType<W>))
        ensures
            r.0 == descriptor::paint_color(self.paint, self.opacity),
            r.1 == descriptor::DrawType::Stroke(descriptor::stroke_style(*self)),
    {
        descriptor::convert_stroke(self)
    }
}

} // verus!
