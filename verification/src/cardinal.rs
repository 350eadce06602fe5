use vstd::prelude::*;

use crate::egocentric::Egocentric;
use crate::geom::GlobalPos;
use crate::geom::GlobalVec;

verus! {

/// A world-relative compass direction.
///
/// The four variants form a cyclic group of order four under `right`
/// (quarter turns clockwise); `rotated` applies an observer-relative
/// offset to a compass direction.
#[derive(Clone, Copy, Debug, PartialEq, Eq, Structural)]
pub enum Cardinal {
    North,
    East,
    South,
    West,
}

impl Cardinal {
    /// The direction a quarter turn clockwise from `self`.
    pub open spec fn spec_right(self) -> Cardinal {
        match self {
            Cardinal::North => Cardinal::East,
            Cardinal::East => Cardinal::South,
            Cardinal::South => Cardinal::West,
            Cardinal::West => Cardinal::North,
        }
    }

    #[verifier::when_used_as_spec(spec_right)]
    pub fn right(self) -> (r: Cardinal)
        ensures
            r == self.spec_right(),
    {
        match self {
            Cardinal::North => Cardinal::East,
            Cardinal::East => Cardinal::South,
            Cardinal::South => Cardinal::West,
            Cardinal::West => Cardinal::North,
        }
    }

    /// The direction a quarter turn counterclockwise from `self`.
    pub open spec fn spec_left(self) -> Cardinal {
        match self {
            Cardinal::North => Cardinal::West,
            Cardinal::East => Cardinal::North,
            Cardinal::South => Cardinal::East,
            Cardinal::West => Cardinal::South,
        }
    }

    #[verifier::when_used_as_spec(spec_left)]
    pub fn left(self) -> (r: Cardinal)
        ensures
            r == self.spec_left(),
    {
        match self {
            Cardinal::North => Cardinal::West,
            Cardinal::East => Cardinal::North,
            Cardinal::South => Cardinal::East,
            Cardinal::West => Cardinal::South,
        }
    }

    /// The opposite direction.
    pub open spec fn spec_reverse(self) -> Cardinal {
        match self {
            Cardinal::North => Cardinal::South,
            Cardinal::East => Cardinal::West,
            Cardinal::South => Cardinal::North,
            Cardinal::West => Cardinal::East,
        }
    }

    #[verifier::when_used_as_spec(spec_reverse)]
    pub fn reverse(self) -> (r: Cardinal)
        ensures
            r == self.spec_reverse(),
    {
        match self {
            Cardinal::North => Cardinal::South,
            Cardinal::East => Cardinal::West,
            Cardinal::South => Cardinal::North,
            Cardinal::West => Cardinal::East,
        }
    }

    /// `self` turned by the observer-relative offset `ego`.
    pub open spec fn spec_rotated(self, ego: Egocentric) -> Cardinal {
        match ego {
            Egocentric::Forward => self,
            Egocentric::Right => self.spec_right(),
            Egocentric::Backward => self.spec_reverse(),
            Egocentric::Left => self.spec_left(),
        }
    }

    #[verifier::when_used_as_spec(spec_rotated)]
    pub fn rotated(self, ego: Egocentric) -> (r: Cardinal)
        ensures
            r == self.spec_rotated(ego),
    {
        match ego {
            Egocentric::Forward => self,
            Egocentric::Right => self.right(),
            Egocentric::Backward => self.reverse(),
            Egocentric::Left => self.left(),
        }
    }
}

impl Cardinal {
    /// The quarter-turn rotation matrix for `self`, applied to mathematical
    /// coordinates, with `North` as the identity.  Forward is negative `y`,
    /// so `East` sends `(x, y)` to `(-y, x)`.
    pub open spec fn spec_rotate(self, x: int, y: int) -> (int, int) {
        match self {
            Cardinal::North => (x, y),
            Cardinal::East => (-y, x),
            Cardinal::South => (-x, -y),
            Cardinal::West => (y, -x),
        }
    }

    /// `v` rotated from the `North` frame into the frame of `self`.
    pub fn rotate_vec(self, v: GlobalVec) -> (r: GlobalVec)
        requires
            v.x != isize::MIN,
            v.y != isize::MIN,
        ensures
            (r.x as int, r.y as int) == self.spec_rotate(v.x as int, v.y as int),
    {
        match self {
            Cardinal::North => v,
            Cardinal::East => GlobalVec { x: -v.y, y: v.x },
            Cardinal::South => GlobalVec { x: -v.x, y: -v.y },
            Cardinal::West => GlobalVec { x: v.y, y: -v.x },
        }
    }

    /// `p` rotated about the room origin, as [`Self::rotate_vec`] rotates a
    /// displacement.
    pub fn rotate_point(self, p: GlobalPos) -> (r: GlobalPos)
        requires
            p.x != isize::MIN,
            p.y != isize::MIN,
        ensures
            (r.x as int, r.y as int) == self.spec_rotate(p.x as int, p.y as int),
    {
        let v = self.rotate_vec(GlobalVec { x: p.x, y: p.y });
        GlobalPos { x: v.x, y: v.y }
    }

    /// The displacement of `n` cells in the direction of `self`.
    pub open spec fn spec_offset_by(self, n: int) -> (int, int) {
        self.spec_rotate(0, -n)
    }

    /// The unit displacement in the direction of `self`.
    pub fn offset(self) -> (r: GlobalVec)
        ensures
            (r.x as int, r.y as int) == self.spec_offset_by(1),
    {
        self.offset_by(1)
    }

    /// The displacement of `sz` cells in the direction of `self`.
    pub fn offset_by(self, sz: isize) -> (r: GlobalVec)
        requires
            sz != isize::MIN,
        ensures
            (r.x as int, r.y as int) == self.spec_offset_by(sz as int),
    {
        self.rotate_vec(GlobalVec { x: 0, y: -sz })
    }
}

/// Four quarter turns clockwise return to the starting direction.
pub proof fn lemma_cardinal_right_four(d: Cardinal)
    ensures
        d.spec_right().spec_right().spec_right().spec_right() == d,
{
}

/// Reversing twice returns to the starting direction.
pub proof fn lemma_cardinal_reverse_twice(d: Cardinal)
    ensures
        d.spec_reverse().spec_reverse() == d,
{
}

/// Rotating by `Forward` is the identity.
pub proof fn lemma_cardinal_rotated_forward(d: Cardinal)
    ensures
        d.spec_rotated(Egocentric::Forward) == d,
{
}

/// Rotating by `a`, then by `b`, is rotating by the composition `a.rotated(b)`:
/// rotation composition matches direction arithmetic.
pub proof fn lemma_cardinal_rotated_compose(d: Cardinal, a: Egocentric, b: Egocentric)
    ensures
        d.spec_rotated(a).spec_rotated(b) == d.spec_rotated(a.spec_rotated(b)),
{
}

} // verus!
