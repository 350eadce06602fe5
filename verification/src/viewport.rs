use vstd::prelude::*;

use crate::geom::safe_bound;
use crate::geom::EgoPoint;
use crate::geom::EgoRect;
use crate::geom::GlobalPoint;
use crate::geom::GlobalView;

verus! {

/// The per-round description of what to compute: the window rectangle in
/// ego space, the cell of that rectangle the observer occupies, and the
/// observer's global pose.
#[derive(Clone, Copy, Debug, PartialEq, Eq, Structural)]
pub struct Viewport {
    pub rect: EgoRect,
    pub observer_in_rect: EgoPoint,
    pub observer: GlobalView,
}

impl Viewport {
    /// The window is well formed and contains the observer's cell, its
    /// coordinates and area leave the flood fill's priorities and
    /// coordinate drift room within machine integers, and the observer's
    /// global position sits within the safe margin.
    pub open spec fn wf(self) -> bool {
        &&& self.rect.wf()
        &&& self.rect.spec_contains(self.observer_in_rect)
        &&& -safe_bound() <= self.rect.x
        &&& self.rect.x + self.rect.w <= safe_bound()
        &&& -safe_bound() <= self.rect.y
        &&& self.rect.y + self.rect.h <= safe_bound()
        &&& 5 * self.rect.area() + 4 <= safe_bound()
        &&& self.observer.x.bounded(safe_bound())
    }

    /// The observer's cell as mathematical coordinates.
    pub open spec fn observer_cell(self) -> (int, int) {
        (self.observer_in_rect.x as int, self.observer_in_rect.y as int)
    }
}

/// The caller-supplied oracle deciding whether a global pose obstructs
/// propagation and sight.  `is_blocked` is the oracle's mathematical
/// content; `blocked` must answer exactly it, so the oracle is a pure
/// function of the pose.
pub trait BlockedQuery {
    spec fn is_blocked(&self, v: GlobalView) -> bool;

    fn blocked(&self, v: GlobalView) -> (b: bool)
        ensures
            b == self.is_blocked(v),
    ;
}

/// An oracle that blocks nothing: every cell propagates and is seeable.
pub struct NeverBlocked;

impl BlockedQuery for NeverBlocked {
    open spec fn is_blocked(&self, v: GlobalView) -> bool {
        false
    }

    fn blocked(&self, v: GlobalView) -> (b: bool) {
        false
    }
}

/// An oracle that blocks exactly the listed cells, whatever the facing.
pub struct BlockList {
    pub cells: Vec<GlobalPoint>,
}

impl BlockedQuery for BlockList {
    open spec fn is_blocked(&self, v: GlobalView) -> bool {
        exists|i: int|
            0 <= i < self.cells@.len() && (#[trigger] self.cells@[i]) == (GlobalPoint {
                r: v.r,
                x: v.x,
            })
    }

    fn blocked(&self, v: GlobalView) -> (b: bool) {
        let p = GlobalPoint { r: v.r, x: v.x };
        let n = self.cells.len();
        let mut i: usize = 0;
        while i < n
            invariant
                p == (GlobalPoint { r: v.r, x: v.x }),
                n == self.cells@.len(),
                i <= n,
                forall|j: int| 0 <= j < i ==> self.cells@[j] != p,
            decreases n - i,
        {
            if self.cells[i] == p {
                assert(self.cells@[i as int] == (GlobalPoint { r: v.r, x: v.x }));
                return true;
            }
            i = i + 1;
        }
        false
    }
}

} // verus!
