//! Coordinate primitives: grid pairs, layered points, axis-aligned route
//! segments, and the classification of a segment's direction.

use vstd::prelude::*;

verus! {

/// Orientation of a routing layer's wires.
#[derive(Clone, Copy, Debug, Eq, Hash, PartialEq, Structural)]
pub enum Direction {
    Horizontal,
    Vertical,
}

/// The two flavours of proximity conflict between master cells.
#[derive(Clone, Copy, Debug, Eq, Hash, PartialEq, Structural)]
pub enum ConflictType {
    AdjHGGrid,
    SameGGrid,
}

/// Whether a cell may be moved.
#[derive(Clone, Copy, Debug, Eq, Hash, PartialEq, Structural)]
pub enum CellType {
    Movable,
    Fixed,
}

/// The signed axis of a route's displacement: Up/Down run along the row axis,
/// Left/Right along the column axis, Top/Bottom along the layer axis.
#[derive(Clone, Copy, Debug, Eq, Hash, PartialEq, Structural)]
pub enum Towards {
    Up,
    Down,
    Left,
    Right,
    Top,
    Bottom,
}

impl Towards {
    /// The opposite direction.
    pub open spec fn spec_inv(self) -> Towards {
        match self {
            Towards::Up => Towards::Down,
            Towards::Down => Towards::Up,
            Towards::Left => Towards::Right,
            Towards::Right => Towards::Left,
            Towards::Top => Towards::Bottom,
            Towards::Bottom => Towards::Top,
        }
    }

    /// Pairs each direction with its opposite.
    pub fn inv(&self) -> (r: Towards)
        ensures
            r == self.spec_inv(),
    {
        match self {
            Towards::Up => Towards::Down,
            Towards::Down => Towards::Up,
            Towards::Left => Towards::Right,
            Towards::Right => Towards::Left,
            Towards::Top => Towards::Bottom,
            Towards::Bottom => Towards::Top,
        }
    }

    /// A direction is planar when it runs along the row or column axis; such
    /// directions are the only ones stored as junction links.
    pub open spec fn is_planar(self) -> bool {
        match self {
            Towards::Up | Towards::Down | Towards::Left | Towards::Right => true,
            Towards::Top | Towards::Bottom => false,
        }
    }

    /// Inversion is an involution.
    pub proof fn lemma_inv_involution(t: Towards)
        ensures
            t.spec_inv().spec_inv() == t,
    {
    }
}

/// A 2-dimensional grid coordinate: (x, y) = (row, column).
#[derive(Clone, Copy, Debug, Default, Eq, Hash, PartialEq, Structural)]
pub struct Pair(pub usize, pub usize);

/// A 3-dimensional coordinate: (row, column, layer).
#[derive(Clone, Copy, Debug, Default, Eq, Hash, PartialEq, Structural)]
pub struct Point(pub usize, pub usize, pub usize);

/// One wire segment, from a source point to a target point.
#[derive(Clone, Copy, Debug, Default, Eq, Hash, PartialEq, Structural)]
pub struct Route(pub Point, pub Point);

impl Pair {
    pub fn x(&self) -> (r: usize)
        ensures
            r == self.0,
    {
        self.0
    }

    pub fn y(&self) -> (r: usize)
        ensures
            r == self.1,
    {
        self.1
    }

    /// The number of grid cells in an x-by-y grid.
    pub fn size(&self) -> (r: usize)
        requires
            self.0 * self.1 <= usize::MAX,
        ensures
            r == self.0 * self.1,
    {
        self.0 * self.1
    }

    /// Lifts the pair to a point on the given layer.
    pub fn with(self, lay: usize) -> (r: Point)
        ensures
            r == Point(self.0, self.1, lay),
    {
        Point(self.0, self.1, lay)
    }
}

impl Point {
    pub fn row(&self) -> (r: usize)
        ensures
            r == self.0,
    {
        self.0
    }

    pub fn col(&self) -> (r: usize)
        ensures
            r == self.1,
    {
        self.1
    }

    pub fn lay(&self) -> (r: usize)
        ensures
            r == self.2,
    {
        self.2
    }

    /// The point's position with the layer dropped.
    pub open spec fn spec_flatten(self) -> Pair {
        Pair(self.0, self.1)
    }

    /// Drops the layer, leaving the 2-dimensional position.
    pub fn flatten(&self) -> (r: Pair)
        ensures
            r == self.spec_flatten(),
    {
        Pair(self.0, self.1)
    }
}

impl Route {
    pub fn source(&self) -> (r: Point)
        ensures
            r == self.0,
    {
        self.0
    }

    pub fn target(&self) -> (r: Point)
        ensures
            r == self.1,
    {
        self.1
    }

    /// Classifies the single non-zero axis of (target - source). A route whose
    /// endpoints coincide or differ on more than one axis is malformed and has
    /// no direction.
    pub open spec fn spec_towards(self) -> Option<Towards> {
        if self.0.1 == self.1.1 && self.0.2 == self.1.2 && self.0.0 != self.1.0 {
            Some(
                if self.0.0 < self.1.0 {
                    Towards::Up
                } else {
                    Towards::Down
                },
            )
        } else if self.0.0 == self.1.0 && self.0.2 == self.1.2 && self.0.1 != self.1.1 {
            Some(
                if self.0.1 < self.1.1 {
                    Towards::Right
                } else {
                    Towards::Left
                },
            )
        } else if self.0.0 == self.1.0 && self.0.1 == self.1.1 && self.0.2 != self.1.2 {
            Some(
                if self.0.2 < self.1.2 {
                    Towards::Top
                } else {
                    Towards::Bottom
                },
            )
        } else {
            None
        }
    }

    /// A route is well formed exactly when it has a direction: exactly one
    /// coordinate differs between source and target.
    pub open spec fn spec_axis_aligned(self) -> bool {
        self.spec_towards() is Some
    }

    /// Classifies the route's direction; `None` on a degenerate or multi-axis
    /// route, which must fail classification rather than be misread.
    pub fn towards(&self) -> (r: Option<Towards>)
        ensures
            r == self.spec_towards(),
            r is None <==> !self.spec_axis_aligned(),
    {
        let Route(s, t) = *self;
        if s.1 == t.1 && s.2 == t.2 && s.0 != t.0 {
            Some(
                if s.0 < t.0 {
                    Towards::Up
                } else {
                    Towards::Down
                },
            )
        } else if s.0 == t.0 && s.2 == t.2 && s.1 != t.1 {
            Some(
                if s.1 < t.1 {
                    Towards::Right
                } else {
                    Towards::Left
                },
            )
        } else if s.0 == t.0 && s.1 == t.1 && s.2 != t.2 {
            Some(
                if s.2 < t.2 {
                    Towards::Top
                } else {
                    Towards::Bottom
                },
            )
        } else {
            None
        }
    }
}

/// For any well-formed axis-aligned route, swapping source and target
/// reverses the classified direction: `towards` of the swapped route equals
/// the inverse of `towards` of the route itself.
pub proof fn lemma_towards_inverse(r: Route)
    requires
        r.spec_axis_aligned(),
    ensures
        Route(r.1, r.0).spec_towards() == Some(r.spec_towards().unwrap().spec_inv()),
{
}

/// A planar route runs on a single layer: both endpoints carry the same layer.
pub proof fn lemma_planar_same_layer(r: Route)
    requires
        r.spec_towards() is Some,
        r.spec_towards().unwrap().is_planar(),
    ensures
        r.0.2 == r.1.2,
        r.0.spec_flatten() != r.1.spec_flatten(),
{
}

} // verus!
