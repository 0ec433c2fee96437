//! The four quadrants of a region and the rule that sorts a point into one.

use vstd::prelude::*;

verus! {

/// One of the four parts into which a region is divided by the extents
/// `(width, height)` of a quadrant: west or east of `width`, north or south
/// of `height`.
#[derive(Clone, Copy, Debug, PartialEq, Eq, Structural)]
pub enum Quadrant {
    Nw,
    Ne,
    Sw,
    Se,
}

impl Quadrant {
    /// The quadrant of a point by the boundary policy: the low side of each
    /// dividing line is inclusive and the north-west quadrant is tried first,
    /// so it wins every tie on a line.
    pub open spec fn of(p: (u32, u32), width: u32, height: u32) -> Quadrant {
        if p.0 <= width && p.1 <= height {
            Quadrant::Nw
        } else if p.0 >= width && p.1 <= height {
            Quadrant::Ne
        } else if p.0 <= width && p.1 >= height {
            Quadrant::Sw
        } else {
            Quadrant::Se
        }
    }

    /// Whether the quadrant lies east of the vertical dividing line.
    pub open spec fn is_east(self) -> bool {
        self == Quadrant::Ne || self == Quadrant::Se
    }

    /// Whether the quadrant lies south of the horizontal dividing line.
    pub open spec fn is_south(self) -> bool {
        self == Quadrant::Sw || self == Quadrant::Se
    }

    /// The origin of the quadrant in the frame of the region it belongs to.
    pub open spec fn origin(self, width: u32, height: u32) -> (int, int) {
        (
            if self.is_east() { width as int } else { 0 },
            if self.is_south() { height as int } else { 0 },
        )
    }

    /// A point of the parent's frame expressed in the frame of this quadrant.
    pub open spec fn localize(self, p: (u32, u32), width: u32, height: u32) -> (u32, u32) {
        (
            if self.is_east() { (p.0 - width) as u32 } else { p.0 },
            if self.is_south() { (p.1 - height) as u32 } else { p.1 },
        )
    }

    /// A point of an enclosing frame expressed in the frame of the quadrant
    /// that the boundary policy assigns it to.
    pub open spec fn route(p: (u32, u32), width: u32, height: u32) -> (u32, u32) {
        Quadrant::of(p, width, height).localize(p, width, height)
    }

    /// Sorts a point into a quadrant of a region whose quadrants have the
    /// extents `(width, height)`.
    pub fn check_quadrant(obj_coord: (u32, u32), width: u32, height: u32) -> (quadrant: Quadrant)
        ensures
            quadrant == Quadrant::of(obj_coord, width, height),
            quadrant.is_east() <==> obj_coord.0 > width,
            quadrant.is_south() <==> obj_coord.1 > height,
    {
        let (current_x, current_y) = (obj_coord.0, obj_coord.1);
        if current_x <= width && current_y <= height {
            Quadrant::Nw
        } else if current_x >= width && current_y <= height {
            Quadrant::Ne
        } else if current_x <= width && current_y >= height {
            Quadrant::Sw
        } else {
            Quadrant::Se
        }
    }

    /// Expresses a point that was sorted into this quadrant in the frame of
    /// the quadrant: the extent of a quadrant is taken off each coordinate
    /// that lies beyond a dividing line.
    pub fn adjust(self, obj_coord: (u32, u32), width: u32, height: u32) -> (adjusted_coord: (
        u32,
        u32,
    ))
        requires
            self == Quadrant::of(obj_coord, width, height),
        ensures
            adjusted_coord == self.localize(obj_coord, width, height),
            adjusted_coord == Quadrant::route(obj_coord, width, height),
    {
        match self {
            Quadrant::Nw => obj_coord,
            Quadrant::Ne => (obj_coord.0 - width, obj_coord.1),
            Quadrant::Sw => (obj_coord.0, obj_coord.1 - height),
            Quadrant::Se => (obj_coord.0 - width, obj_coord.1 - height),
        }
    }
}

/// Every point belongs to exactly one quadrant, whatever the extents: the
/// east begins right of the column `width`, the south below the row
/// `height`, and the two lines themselves belong to the west and the north.
pub proof fn lemma_quadrants_partition(p: (u32, u32), width: u32, height: u32)
    ensures
        Quadrant::of(p, width, height) == Quadrant::Nw <==> p.0 <= width && p.1 <= height,
        Quadrant::of(p, width, height) == Quadrant::Ne <==> p.0 > width && p.1 <= height,
        Quadrant::of(p, width, height) == Quadrant::Sw <==> p.0 <= width && p.1 > height,
        Quadrant::of(p, width, height) == Quadrant::Se <==> p.0 > width && p.1 > height,
{
}

/// The point where the two dividing lines cross belongs to the north-west
/// quadrant.
pub proof fn lemma_center_is_north_west(width: u32, height: u32)
    ensures
        Quadrant::of((width, height), width, height) == Quadrant::Nw,
{
}

/// Expressing a point in the frame of its quadrant never takes a coordinate
/// below zero, and moving the result back by the quadrant's origin gives the
/// point again.
pub proof fn lemma_localize_keeps_position(p: (u32, u32), width: u32, height: u32)
    ensures
        ({
            let quadrant = Quadrant::of(p, width, height);
            let local = Quadrant::route(p, width, height);
            let origin = quadrant.origin(width, height);
            &&& origin.0 <= p.0
            &&& origin.1 <= p.1
            &&& local.0 == p.0 - origin.0
            &&& local.1 == p.1 - origin.1
        }),
{
}

} // verus!
