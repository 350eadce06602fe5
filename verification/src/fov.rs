use vstd::prelude::*;

use crate::geom::safe_bound;
use crate::geom::EgoPoint;
use crate::grid::Grid;

verus! {

/// The set of positions shadowcasting marks visible from `(ox, oy)` under
/// a total blocking oracle.  The algorithm's output is a pure function of
/// these arguments; its value is not axiomatized here.
pub uninterp spec fn fov_set(ox: int, oy: int, blocked: Map<(int, int), bool>) -> Set<(int, int)>;

/// The total blocking oracle a grid of flags denotes: cells outside the
/// grid block sight.
pub open spec fn fov_oracle(g: Grid<bool>) -> Map<(int, int), bool> {
    Map::total(
        |c: (int, int)|
            if g.spec_rect().contains_coords(c.0, c.1) {
                g.cell(c.0, c.1)
            } else {
                true
            },
    )
}

/// Whether `(x, y)` blocks sight according to `g`, cells outside `g`
/// blocking.
pub(crate) fn fov_blocked_at(g: &Grid<bool>, x: isize, y: isize) -> (r: bool)
    requires
        g.wf(),
    ensures
        r == fov_oracle(*g)[(x as int, y as int)],
{
    match g.get(EgoPoint { x, y }) {
        Some(b) => b,
        None => true,
    }
}

/// The cells a list of marks denotes.
pub open spec fn marks_set(s: Seq<(isize, isize)>) -> Set<(int, int)> {
    s.map_values(|p: (isize, isize)| (p.0 as int, p.1 as int)).to_set()
}

/// Relies on symmetric_shadowcasting::compute_fov: the positions its
/// mark-visible callback receives are a function of the origin and the
/// blocking closure alone, and the blocking closure here answers purely
/// from `g` (everything outside the finite grid blocks, so each scan
/// stops within the grid's margin and the call returns).
#[verifier::external_body]
pub(crate) fn run_shadowcast(ox: isize, oy: isize, g: &Grid<bool>) -> (r: Vec<(isize, isize)>)
    requires
        g.wf(),
        g.spec_rect().spec_contains(EgoPoint { x: ox, y: oy }),
        -safe_bound() <= g.spec_rect().x,
        g.spec_rect().x + g.spec_rect().w <= safe_bound(),
        -safe_bound() <= g.spec_rect().y,
        g.spec_rect().y + g.spec_rect().h <= safe_bound(),
    ensures
        marks_set(r@) == fov_set(ox as int, oy as int, fov_oracle(*g)),
{
    let mut out: Vec<(isize, isize)> = Vec::new();
    symmetric_shadowcasting::compute_fov(
        (ox, oy),
        &mut |p: (isize, isize)| fov_blocked_at(g, p.0, p.1),
        &mut |p: (isize, isize)| out.push(p),
    );
    out
}

} // verus!
