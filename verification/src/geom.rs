use vstd::prelude::*;

use crate::cardinal::Cardinal;

verus! {

/// Marker for the absolute coordinate frame: positions measured within a
/// room, paired with a [`RoomId`].  Kept distinct from [`EgoSpace`] so that
/// the two frames are never mixed by accident.
#[derive(Clone, Copy, Debug, PartialEq, Eq, Structural)]
pub struct GlobalSpace;

/// Marker for the observer-relative coordinate frame: positions measured
/// from the observer, rotated so that "forward" is always negative `y`.
#[derive(Clone, Copy, Debug, PartialEq, Eq, Structural)]
pub struct EgoSpace;

/// Identifier of a room.  Rooms are opaque here: the portal graph and the
/// egosphere only ever compare identifiers for equality.
#[derive(Clone, Copy, Debug, PartialEq, Eq, Structural)]
pub struct RoomId(pub u64);

/// A displacement in the global frame (see [`GlobalSpace`]).
#[derive(Clone, Copy, Debug, PartialEq, Eq, Structural)]
pub struct GlobalVec {
    pub x: isize,
    pub y: isize,
}

/// A position in the global frame of some room (see [`GlobalSpace`]).
#[derive(Clone, Copy, Debug, PartialEq, Eq, Structural)]
pub struct GlobalPos {
    pub x: isize,
    pub y: isize,
}

/// A displacement in the observer-relative frame (see [`EgoSpace`]).
#[derive(Clone, Copy, Debug, PartialEq, Eq, Structural)]
pub struct EgoVec {
    pub x: isize,
    pub y: isize,
}

/// A position in the observer-relative frame (see [`EgoSpace`]).
#[derive(Clone, Copy, Debug, PartialEq, Eq, Structural)]
pub struct EgoPoint {
    pub x: isize,
    pub y: isize,
}

/// An axis-aligned rectangle of ego-space cells: the half-open ranges
/// `x..x + w` by `y..y + h`.
#[derive(Clone, Copy, Debug, PartialEq, Eq, Structural)]
pub struct EgoRect {
    pub x: isize,
    pub y: isize,
    pub w: isize,
    pub h: isize,
}

/// A pose in absolute world coordinates: a room, a position in it, and a
/// facing.
#[derive(Clone, Copy, Debug, PartialEq, Eq, Structural)]
pub struct GlobalView {
    pub r: RoomId,
    pub x: GlobalPos,
    pub c: Cardinal,
}

/// A located cell in absolute world coordinates, without a facing.
#[derive(Clone, Copy, Debug, PartialEq, Eq, Structural)]
pub struct GlobalPoint {
    pub r: RoomId,
    pub x: GlobalPos,
}

/// Coordinate magnitude under which the library promises overflow-free
/// stepping: portal destinations are kept within this bound, and windows may
/// drift a bounded distance beyond it.
pub open spec fn safe_bound() -> int {
    isize::MAX as int / 2
}

impl GlobalPos {
    /// Whether both coordinates lie within `[-b, b]`.
    pub open spec fn bounded(self, b: int) -> bool {
        -b <= self.x <= b && -b <= self.y <= b
    }

    /// This position displaced by the mathematical offset `(dx, dy)`,
    /// truncated into `isize` (no truncation happens within bounds).
    pub open spec fn shifted(self, d: (int, int)) -> GlobalPos {
        GlobalPos { x: (self.x + d.0) as isize, y: (self.y + d.1) as isize }
    }

    /// This position displaced by `v`.
    pub fn plus(self, v: GlobalVec) -> (r: GlobalPos)
        requires
            isize::MIN <= self.x + v.x <= isize::MAX,
            isize::MIN <= self.y + v.y <= isize::MAX,
        ensures
            r.x == self.x + v.x,
            r.y == self.y + v.y,
    {
        GlobalPos { x: self.x + v.x, y: self.y + v.y }
    }
}

impl GlobalVec {
    /// The sum of two displacements.
    pub fn plus(self, v: GlobalVec) -> (r: GlobalVec)
        requires
            isize::MIN <= self.x + v.x <= isize::MAX,
            isize::MIN <= self.y + v.y <= isize::MAX,
        ensures
            r.x == self.x + v.x,
            r.y == self.y + v.y,
    {
        GlobalVec { x: self.x + v.x, y: self.y + v.y }
    }
}

impl EgoPoint {
    /// This position displaced by `v`.
    pub fn plus(self, v: EgoVec) -> (r: EgoPoint)
        requires
            isize::MIN <= self.x + v.x <= isize::MAX,
            isize::MIN <= self.y + v.y <= isize::MAX,
        ensures
            r.x == self.x + v.x,
            r.y == self.y + v.y,
    {
        EgoPoint { x: self.x + v.x, y: self.y + v.y }
    }

    /// The displacement from `other` to `self`.
    pub fn minus(self, other: EgoPoint) -> (r: EgoVec)
        requires
            isize::MIN <= self.x - other.x <= isize::MAX,
            isize::MIN <= self.y - other.y <= isize::MAX,
        ensures
            r.x == self.x - other.x,
            r.y == self.y - other.y,
    {
        EgoVec { x: self.x - other.x, y: self.y - other.y }
    }
}

impl EgoRect {
    /// A rectangle is well formed when its extents are non-negative and its
    /// far edges are still representable.
    pub open spec fn wf(self) -> bool {
        &&& 0 <= self.w
        &&& 0 <= self.h
        &&& self.x + self.w <= isize::MAX
        &&& self.y + self.h <= isize::MAX
    }

    /// The number of cells in the rectangle.
    pub open spec fn area(self) -> int {
        self.w * self.h
    }

    /// Whether the cell at mathematical coordinates `(cx, cy)` lies inside.
    pub open spec fn contains_coords(self, cx: int, cy: int) -> bool {
        self.x <= cx < self.x + self.w && self.y <= cy < self.y + self.h
    }

    /// Whether `p` lies inside the rectangle.
    pub open spec fn spec_contains(self, p: EgoPoint) -> bool {
        self.contains_coords(p.x as int, p.y as int)
    }

    #[verifier::when_used_as_spec(spec_contains)]
    pub fn contains(self, p: EgoPoint) -> (r: bool)
        requires
            self.wf(),
        ensures
            r == self.spec_contains(p),
    {
        self.x <= p.x && p.x < self.x + self.w && self.y <= p.y && p.y < self.y + self.h
    }
}

impl GlobalView {
    /// The same pose turned by the observer-relative offset `ego`.
    pub open spec fn spec_rotated(self, ego: crate::egocentric::Egocentric) -> GlobalView {
        GlobalView { c: self.c.spec_rotated(ego), ..self }
    }

    #[verifier::when_used_as_spec(spec_rotated)]
    pub fn rotated(self, ego: crate::egocentric::Egocentric) -> (r: GlobalView)
        ensures
            r == self.spec_rotated(ego),
    {
        GlobalView { r: self.r, x: self.x, c: self.c.rotated(ego) }
    }

    /// The pose's location, with the facing forgotten.
    pub fn point(self) -> (r: GlobalPoint)
        ensures
            r == (GlobalPoint { r: self.r, x: self.x }),
    {
        GlobalPoint { r: self.r, x: self.x }
    }
}

impl GlobalPoint {
    /// The located cell regarded as a pose facing `c`.
    pub fn facing(self, c: Cardinal) -> (r: GlobalView)
        ensures
            r == (GlobalView { r: self.r, x: self.x, c }),
    {
        GlobalView { r: self.r, x: self.x, c }
    }
}

} // verus!
