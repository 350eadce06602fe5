use vstd::prelude::*;

use crate::geom::EgoPoint;
use crate::geom::EgoRect;

verus! {

/// A rectangle of ego-space cells stored row major.  `resize` re-seeds
/// every cell; per-round invalidation is the caller's business (the
/// egosphere compares generation tokens instead of clearing).
pub struct Grid<T> {
    rect: EgoRect,
    cells: Vec<T>,
}

/// The row-major index of `(cx, cy)` in a grid over `rect`.
pub open spec fn grid_index(rect: EgoRect, cx: int, cy: int) -> int {
    (cy - rect.y) * rect.w + (cx - rect.x)
}

/// A cell inside `rect` has its row-major index inside `rect.area()`.
proof fn lemma_grid_index_bounds(rect: EgoRect, cx: int, cy: int)
    requires
        rect.wf(),
        rect.contains_coords(cx, cy),
    ensures
        0 <= grid_index(rect, cx, cy) < rect.area(),
{
    let dx = cx - rect.x;
    let dy = cy - rect.y;
    assert(0 <= dy * rect.w + dx < rect.h * rect.w) by (nonlinear_arith)
        requires
            0 <= dx < rect.w,
            0 <= dy < rect.h,
    {
    }
    assert(rect.h * rect.w == rect.area()) by (nonlinear_arith) {}
}

/// Distinct cells inside `rect` have distinct row-major indices.
proof fn lemma_grid_index_injective(rect: EgoRect, cx1: int, cy1: int, cx2: int, cy2: int)
    requires
        rect.wf(),
        rect.contains_coords(cx1, cy1),
        rect.contains_coords(cx2, cy2),
        grid_index(rect, cx1, cy1) == grid_index(rect, cx2, cy2),
    ensures
        cx1 == cx2 && cy1 == cy2,
{
    let dx1 = cx1 - rect.x;
    let dy1 = cy1 - rect.y;
    let dx2 = cx2 - rect.x;
    let dy2 = cy2 - rect.y;
    assert(dx1 == dx2 && dy1 == dy2) by (nonlinear_arith)
        requires
            0 <= dx1 < rect.w,
            0 <= dy1 < rect.h,
            0 <= dx2 < rect.w,
            0 <= dy2 < rect.h,
            dy1 * rect.w + dx1 == dy2 * rect.w + dx2,
    {
    }
}

impl<T: Copy> Grid<T> {
    /// The rectangle the grid currently covers.
    pub closed spec fn spec_rect(&self) -> EgoRect {
        self.rect
    }

    /// The value stored at mathematical coordinates `(cx, cy)`
    /// (meaningful when the rectangle contains the cell).
    pub closed spec fn cell(self, cx: int, cy: int) -> T {
        self.cells@[grid_index(self.rect, cx, cy)]
    }

    /// The grid's storage matches its rectangle.
    pub closed spec fn wf(self) -> bool {
        self.rect.wf() && self.cells@.len() == self.rect.area()
    }

    /// An empty grid over the degenerate rectangle at the origin.
    pub fn new_empty() -> (r: Grid<T>)
        ensures
            r.wf(),
            r.spec_rect() == (EgoRect { x: 0, y: 0, w: 0, h: 0 }),
    {
        Grid { rect: EgoRect { x: 0, y: 0, w: 0, h: 0 }, cells: Vec::new() }
    }

    #[verifier::when_used_as_spec(spec_rect)]
    pub fn rect(&self) -> (r: EgoRect)
        ensures
            r == self.spec_rect(),
    {
        self.rect
    }

    /// Replace the grid by one over `rect` with every cell set to `fill`.
    pub fn resize(&mut self, rect: EgoRect, fill: T)
        requires
            rect.wf(),
            rect.area() <= usize::MAX,
        ensures
            final(self).wf(),
            final(self).spec_rect() == rect,
            forall|cx: int, cy: int|
                rect.contains_coords(cx, cy) ==> final(self).cell(cx, cy) == fill,
    {
        let n: usize = (rect.w as usize) * (rect.h as usize);
        let mut cells: Vec<T> = Vec::new();
        let mut i: usize = 0;
        while i < n
            invariant
                cells@.len() == i,
                i <= n,
                forall|j: int| 0 <= j < i ==> cells@[j] == fill,
            decreases n - i,
        {
            cells.push(fill);
            i = i + 1;
        }
        self.rect = rect;
        self.cells = cells;
        proof {
            assert forall|cx: int, cy: int| rect.contains_coords(cx, cy)
                implies self.cell(cx, cy) == fill by {
                lemma_grid_index_bounds(rect, cx, cy);
            }
        }
    }

    /// The stored value at `p`, or nothing when `p` is outside the grid.
    pub fn get(&self, p: EgoPoint) -> (r: Option<T>)
        requires
            self.wf(),
        ensures
            r == if self.spec_rect().spec_contains(p) {
                Some(self.cell(p.x as int, p.y as int))
            } else {
                None::<T>
            },
    {
        if self.rect.contains(p) {
            proof {
                lemma_grid_index_bounds(self.rect, p.x as int, p.y as int);
            }
            let n: usize = self.cells.len();
            let iy: usize = (p.y - self.rect.y) as usize;
            let ix: usize = (p.x - self.rect.x) as usize;
            assert(iy * self.rect.w as usize + ix < n);
            let i: usize = iy * (self.rect.w as usize) + ix;
            Some(self.cells[i])
        } else {
            None
        }
    }

    /// Store `v` at `p`, leaving every other cell as it was.
    pub fn set(&mut self, p: EgoPoint, v: T)
        requires
            old(self).wf(),
            old(self).spec_rect().spec_contains(p),
        ensures
            final(self).wf(),
            final(self).spec_rect() == old(self).spec_rect(),
            final(self).cell(p.x as int, p.y as int) == v,
            forall|cx: int, cy: int|
                final(self).spec_rect().contains_coords(cx, cy) && !(cx == p.x as int && cy
                    == p.y as int) ==> final(self).cell(cx, cy) == old(self).cell(cx, cy),
    {
        proof {
            lemma_grid_index_bounds(self.rect, p.x as int, p.y as int);
        }
        let n: usize = self.cells.len();
        let iy: usize = (p.y - self.rect.y) as usize;
        let ix: usize = (p.x - self.rect.x) as usize;
        assert(iy * self.rect.w as usize + ix < n);
        let i: usize = iy * (self.rect.w as usize) + ix;
        self.cells.set(i, v);
        proof {
            assert forall|cx: int, cy: int|
                self.spec_rect().contains_coords(cx, cy) && !(cx == p.x as int && cy == p.y
                    as int) implies self.cell(cx, cy) == old(self).cell(cx, cy) by {
                lemma_grid_index_bounds(self.rect, cx, cy);
                if grid_index(self.rect, cx, cy) == grid_index(self.rect, p.x as int, p.y as int) {
                    lemma_grid_index_injective(
                        self.rect,
                        cx,
                        cy,
                        p.x as int,
                        p.y as int,
                    );
                }
            }
        }
    }

    /// Whether `p` lies inside the grid.
    pub fn contains(&self, p: EgoPoint) -> (r: bool)
        requires
            self.wf(),
        ensures
            r == self.spec_rect().spec_contains(p),
    {
        self.rect.contains(p)
    }
}

} // verus!
