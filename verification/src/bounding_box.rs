//! Axis-aligned bounding boxes used for visibility and culling tests.

use vstd::prelude::*;

verus! {

/// An axis-aligned rectangle in world space. A well-formed box has
/// `left < right` and `top < bottom`; this is a caller-side convention and is
/// never validated. A malformed box simply fails every intersection test.
#[derive(Clone, Copy, PartialEq, Eq, Structural, Debug)]
pub struct BoundingBox {
    pub left: i32,
    pub right: i32,
    pub top: i32,
    pub bottom: i32,
}

/// Two boxes intersect when they overlap with positive area: all four
/// comparisons are strict, so boxes that only touch at an edge or a corner do
/// not intersect.
pub open spec fn boxes_intersect(a: BoundingBox, b: BoundingBox) -> bool {
    a.left < b.right && a.right > b.left && a.top < b.bottom && a.bottom > b.top
}

impl BoundingBox {
    pub fn intersects(&self, other: &BoundingBox) -> (r: bool)
        ensures
            r == boxes_intersect(*self, *other),
    {
        self.left < other.right && self.right > other.left && self.top < other.bottom
            && self.bottom > other.top
    }
}

/// Intersection is symmetric: the order of the two boxes never matters.
pub proof fn lemma_intersects_symmetric(a: BoundingBox, b: BoundingBox)
    ensures
        boxes_intersect(a, b) == boxes_intersect(b, a),
{
}

/// Boxes that share only an edge (the right edge of `a` is the left edge of
/// `b`) do not intersect, whatever their vertical extents.
pub proof fn lemma_edge_sharing_boxes_do_not_intersect(a: BoundingBox, b: BoundingBox)
    requires
        a.right == b.left,
    ensures
        !boxes_intersect(a, b),
{
}

} // verus!
