use vstd::prelude::*;

use crate::geom::EgoPoint;
use crate::geom::EgoVec;

verus! {

/// An observer-relative direction.
///
/// Mirrors [`crate::Cardinal`] but is interpreted relative to whatever way
/// an observer is facing; the two are composed with `Cardinal::rotated`.
#[derive(Clone, Copy, Debug, PartialEq, Eq, Structural)]
pub enum Egocentric {
    Forward,
    Right,
    Backward,
    Left,
}

impl Egocentric {
    /// The direction a quarter turn clockwise from `self`.
    pub open spec fn spec_right(self) -> Egocentric {
        match self {
            Egocentric::Forward => Egocentric::Right,
            Egocentric::Right => Egocentric::Backward,
            Egocentric::Backward => Egocentric::Left,
            Egocentric::Left => Egocentric::Forward,
        }
    }

    #[verifier::when_used_as_spec(spec_right)]
    pub fn right(self) -> (r: Egocentric)
        ensures
            r == self.spec_right(),
    {
        match self {
            Egocentric::Forward => Egocentric::Right,
            Egocentric::Right => Egocentric::Backward,
            Egocentric::Backward => Egocentric::Left,
            Egocentric::Left => Egocentric::Forward,
        }
    }

    /// The direction a quarter turn counterclockwise from `self`.
    pub open spec fn spec_left(self) -> Egocentric {
        match self {
            Egocentric::Forward => Egocentric::Left,
            Egocentric::Right => Egocentric::Forward,
            Egocentric::Backward => Egocentric::Right,
            Egocentric::Left => Egocentric::Backward,
        }
    }

    #[verifier::when_used_as_spec(spec_left)]
    pub fn left(self) -> (r: Egocentric)
        ensures
            r == self.spec_left(),
    {
        match self {
            Egocentric::Forward => Egocentric::Left,
            Egocentric::Right => Egocentric::Forward,
            Egocentric::Backward => Egocentric::Right,
            Egocentric::Left => Egocentric::Backward,
        }
    }

    /// The opposite direction.
    pub open spec fn spec_reverse(self) -> Egocentric {
        match self {
            Egocentric::Forward => Egocentric::Backward,
            Egocentric::Right => Egocentric::Left,
            Egocentric::Backward => Egocentric::Forward,
            Egocentric::Left => Egocentric::Right,
        }
    }

    #[verifier::when_used_as_spec(spec_reverse)]
    pub fn reverse(self) -> (r: Egocentric)
        ensures
            r == self.spec_reverse(),
    {
        match self {
            Egocentric::Forward => Egocentric::Backward,
            Egocentric::Right => Egocentric::Left,
            Egocentric::Backward => Egocentric::Forward,
            Egocentric::Left => Egocentric::Right,
        }
    }

    /// The rotation that undoes `self`: rotating by `self` and then by
    /// `self.undo()` is the identity.  (`Forward` and `Backward` are their
    /// own inverses; `Right` and `Left` are each other's.)
    pub open spec fn spec_undo(self) -> Egocentric {
        match self {
            Egocentric::Forward => Egocentric::Forward,
            Egocentric::Right => Egocentric::Left,
            Egocentric::Backward => Egocentric::Backward,
            Egocentric::Left => Egocentric::Right,
        }
    }

    #[verifier::when_used_as_spec(spec_undo)]
    pub fn undo(self) -> (r: Egocentric)
        ensures
            r == self.spec_undo(),
    {
        match self {
            Egocentric::Forward => Egocentric::Forward,
            Egocentric::Right => Egocentric::Left,
            Egocentric::Backward => Egocentric::Backward,
            Egocentric::Left => Egocentric::Right,
        }
    }

    /// `self` turned by the further offset `ego`; this is the group's
    /// composition operation.
    pub open spec fn spec_rotated(self, ego: Egocentric) -> Egocentric {
        match ego {
            Egocentric::Forward => self,
            Egocentric::Right => self.spec_right(),
            Egocentric::Backward => self.spec_reverse(),
            Egocentric::Left => self.spec_left(),
        }
    }

    #[verifier::when_used_as_spec(spec_rotated)]
    pub fn rotated(self, ego: Egocentric) -> (r: Egocentric)
        ensures
            r == self.spec_rotated(ego),
    {
        match ego {
            Egocentric::Forward => self,
            Egocentric::Right => self.right(),
            Egocentric::Backward => self.reverse(),
            Egocentric::Left => self.left(),
        }
    }
}

impl Egocentric {
    /// The quarter-turn rotation matrix for `self`, applied to mathematical
    /// coordinates, with `Forward` as the identity.  Forward is negative
    /// `y`, so `Right` sends `(x, y)` to `(-y, x)`.
    pub open spec fn spec_rotate(self, x: int, y: int) -> (int, int) {
        match self {
            Egocentric::Forward => (x, y),
            Egocentric::Right => (-y, x),
            Egocentric::Backward => (-x, -y),
            Egocentric::Left => (y, -x),
        }
    }

    /// `v` rotated from the `Forward` frame into the frame of `self`.
    pub fn rotate_vec(self, v: EgoVec) -> (r: EgoVec)
        requires
            v.x != isize::MIN,
            v.y != isize::MIN,
        ensures
            (r.x as int, r.y as int) == self.spec_rotate(v.x as int, v.y as int),
    {
        match self {
            Egocentric::Forward => v,
            Egocentric::Right => EgoVec { x: -v.y, y: v.x },
            Egocentric::Backward => EgoVec { x: -v.x, y: -v.y },
            Egocentric::Left => EgoVec { x: v.y, y: -v.x },
        }
    }

    /// `p` rotated about the ego origin, as [`Self::rotate_vec`] rotates a
    /// displacement.
    pub fn rotate_point(self, p: EgoPoint) -> (r: EgoPoint)
        requires
            p.x != isize::MIN,
            p.y != isize::MIN,
        ensures
            (r.x as int, r.y as int) == self.spec_rotate(p.x as int, p.y as int),
    {
        let v = self.rotate_vec(EgoVec { x: p.x, y: p.y });
        EgoPoint { x: v.x, y: v.y }
    }

    /// The displacement of `n` cells in the direction of `self`.
    pub open spec fn spec_offset_by(self, n: int) -> (int, int) {
        self.spec_rotate(0, -n)
    }

    /// The unit displacement in the direction of `self`.
    pub fn offset(self) -> (r: EgoVec)
        ensures
            (r.x as int, r.y as int) == self.spec_offset_by(1),
    {
        self.offset_by(1)
    }

    /// The displacement of `sz` cells in the direction of `self`.
    pub fn offset_by(self, sz: isize) -> (r: EgoVec)
        requires
            sz != isize::MIN,
        ensures
            (r.x as int, r.y as int) == self.spec_offset_by(sz as int),
    {
        self.rotate_vec(EgoVec { x: 0, y: -sz })
    }
}

/// Four quarter turns clockwise return to the starting direction.
pub proof fn lemma_egocentric_right_four(d: Egocentric)
    ensures
        d.spec_right().spec_right().spec_right().spec_right() == d,
{
}

/// Reversing twice returns to the starting direction.
pub proof fn lemma_egocentric_reverse_twice(d: Egocentric)
    ensures
        d.spec_reverse().spec_reverse() == d,
{
}

/// Rotating by `Forward` is the identity.
pub proof fn lemma_egocentric_rotated_forward(d: Egocentric)
    ensures
        d.spec_rotated(Egocentric::Forward) == d,
{
}

/// `undo` is the group inverse of `rotated`.
pub proof fn lemma_egocentric_undo(d: Egocentric, ego: Egocentric)
    ensures
        d.spec_rotated(ego).spec_rotated(ego.spec_undo()) == d,
        d.spec_rotated(ego.spec_undo()).spec_rotated(ego) == d,
{
}

} // verus!
