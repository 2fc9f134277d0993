//! Axis-aligned bounding boxes.

use vstd::prelude::*;

verus! {

/// The least and greatest coordinates of a set of vertices.
#[derive(Clone, Copy, Debug, PartialEq, Eq, Structural)]
pub struct BoundingBox {
    pub min_x: i32,
    pub max_x: i32,
    pub min_y: i32,
    pub max_y: i32,
}

impl BoundingBox {
    pub fn new(min_x: i32, max_x: i32, min_y: i32, max_y: i32) -> (b: BoundingBox)
        ensures
            b == (BoundingBox { min_x, max_x, min_y, max_y }),
    {
        BoundingBox { min_x, max_x, min_y, max_y }
    }

    /// Twice the centre of the box, exactly: the centre lies half way
    /// between the least and greatest coordinates on each axis.
    pub fn doubled_center(&self) -> (r: (i64, i64))
        ensures
            r.0 == self.min_x + self.max_x,
            r.1 == self.min_y + self.max_y,
    {
        (self.min_x as i64 + self.max_x as i64, self.min_y as i64 + self.max_y as i64)
    }
}

} // verus!
