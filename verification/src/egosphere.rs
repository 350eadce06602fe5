use vstd::prelude::*;

use vstd::set_lib::lemma_len_subset;

use crate::explore::cells_of_rect;
use crate::explore::entry_step_ok;
use crate::explore::lemma_cells_of_rect_len;
use crate::explore::lemma_explore_step;
use crate::explore::lemma_new_entries_in_rect;
use crate::explore::lemma_new_entries_step_ok;
use crate::explore::pop_best;
use crate::explore::pop_idx;
use crate::explore::lemma_pop_idx_in_range;
use crate::explore::lemma_seq_assoc;
use crate::explore::lemma_explore_reachable;
use crate::explore::queue_reach_ok;
use crate::explore::reach;
use crate::explore::spec_explore;
use crate::explore::spec_entry_at;
use crate::explore::spec_new_entries;
use crate::explore::explore_wf;
use crate::explore::Entry;
use crate::fov::fov_oracle;
use crate::fov::fov_set;
use crate::fov::marks_set;
use crate::fov::run_shadowcast;
use crate::geom::safe_bound;
use crate::geom::EgoPoint;
use crate::geom::EgoRect;
use crate::geom::GlobalView;
use crate::grid::Grid;
use crate::portals::lemma_step_offset_bounded;
use crate::portals::Portals;
use crate::portals::PortalsV;
use crate::viewport::BlockedQuery;
use crate::viewport::Viewport;

verus! {

/// The blocked oracle's mathematical content, as a single function value.
pub open spec fn oracle_of<B: BlockedQuery>(blocked: &B) -> spec_fn(GlobalView) -> bool {
    |gv: GlobalView| blocked.is_blocked(gv)
}

/// Every cell one round resolves, as a function of the round's inputs
/// alone: the flood fill seeded at the observer's cell.
pub open spec fn spec_resolved_map(
    vp: Viewport,
    p: PortalsV,
    blocked: spec_fn(GlobalView) -> bool,
) -> Map<(int, int), GlobalView> {
    spec_explore(
        p,
        blocked,
        vp.rect,
        vp.observer,
        Map::empty(),
        seq![
            Entry {
                cost: 0,
                dst_x: vp.observer_in_rect.x,
                dst_y: vp.observer_in_rect.y,
                src_x: vp.observer_in_rect.x,
                src_y: vp.observer_in_rect.y,
            },
        ],
    )
}

/// Every cell one round lights, as a function of the round's inputs
/// alone: shadowcasting from the observer's cell against the resolved
/// map, restricted to the window (unresolved and out-of-window cells
/// block sight).
pub open spec fn spec_lit(vp: Viewport, p: PortalsV, blocked: spec_fn(GlobalView) -> bool) -> Set<
    (int, int),
> {
    let resolved = spec_resolved_map(vp, p, blocked);
    let oracle = Map::total(
        |c: (int, int)| !resolved.dom().contains(c) || blocked(resolved[c]),
    );
    fov_set(vp.observer_cell().0, vp.observer_cell().1, oracle).intersect(cells_of_rect(vp.rect))
}

/// The run an `enqueue` call appends: the single candidate edge, or
/// nothing when the destination lies outside the window or is already
/// resolved this round.
spec fn enqueue_effect(
    rect: EgoRect,
    resolved: Map<(int, int), GlobalView>,
    cost: isize,
    src: EgoPoint,
    ox: int,
    oy: int,
) -> Seq<Entry> {
    let dx = src.x + ox;
    let dy = src.y + oy;
    if rect.contains_coords(dx, dy) && !resolved.dom().contains((dx, dy)) {
        seq![
            Entry {
                cost: cost,
                dst_x: dx as isize,
                dst_y: dy as isize,
                src_x: src.x,
                src_y: src.y,
            },
        ]
    } else {
        Seq::empty()
    }
}

/// A pending edge moves a single cell from a source that is either
/// already resolved or is the seed at the observer's own cell.
spec fn queue_entry_ok(vp: Viewport, resolved: Map<(int, int), GlobalView>, e: Entry) -> bool {
    &&& -1 <= e.dst_x - e.src_x <= 1
    &&& -1 <= e.dst_y - e.src_y <= 1
    &&& resolved.dom().contains(e.src()) || (e.src() == vp.observer_cell() && e.dst()
        == vp.observer_cell())
}

spec fn queue_src_ok(vp: Viewport, resolved: Map<(int, int), GlobalView>, q: Seq<Entry>) -> bool {
    forall|i: int| 0 <= i < q.len() ==> queue_entry_ok(vp, resolved, #[trigger] q[i])
}

/// Pending priorities never fall below five per resolved cell, so the
/// exploration's priority arithmetic stays within machine integers.
spec fn queue_cost_ok(resolved: Map<(int, int), GlobalView>, q: Seq<Entry>) -> bool {
    forall|i: int| 0 <= i < q.len() ==> (#[trigger] q[i]).cost >= -5 * resolved.dom().len()
}

/// Every resolved pose drifted at most two coordinate steps per resolved
/// cell from the safe margin.
spec fn resolved_bounded(resolved: Map<(int, int), GlobalView>) -> bool {
    forall|c: (int, int)| #[trigger]
        resolved.dom().contains(c) ==> resolved[c].x.bounded(
            safe_bound() + 2 * resolved.dom().len(),
        )
}

/// Whether one of the first `n` marks denotes cell `c`.
spec fn mark_hit(s: Seq<(isize, isize)>, n: int, c: (int, int)) -> bool {
    exists|j: int| 0 <= j < n && ((#[trigger] s[j]).0 as int, s[j].1 as int) == c
}

proof fn lemma_marks_set_hit(s: Seq<(isize, isize)>, c: (int, int))
    ensures
        marks_set(s).contains(c) <==> mark_hit(s, s.len() as int, c),
{
    let m = s.map_values(|p: (isize, isize)| (p.0 as int, p.1 as int));
    if marks_set(s).contains(c) {
        assert(m.contains(c));
        let j = choose|j: int| 0 <= j < m.len() && m[j] == c;
        assert(((s[j]).0 as int, s[j].1 as int) == c);
    }
    if mark_hit(s, s.len() as int, c) {
        let j = choose|j: int|
            0 <= j < s.len() && ((#[trigger] s[j]).0 as int, s[j].1 as int) == c;
        assert(m[j] == c);
        assert(m.contains(c));
    }
}

/// Removing an entry keeps the queue predicates.
proof fn lemma_queue_remove_ok(
    vp: Viewport,
    resolved: Map<(int, int), GlobalView>,
    q: Seq<Entry>,
    i: int,
)
    requires
        0 <= i < q.len(),
        queue_src_ok(vp, resolved, q),
        queue_cost_ok(resolved, q),
        forall|j: int|
            0 <= j < q.len() ==> vp.rect.contains_coords((#[trigger] q[j]).dst().0, q[j].dst().1),
    ensures
        queue_src_ok(vp, resolved, q.remove(i)),
        queue_cost_ok(resolved, q.remove(i)),
        forall|j: int|
            0 <= j < q.remove(i).len() ==> vp.rect.contains_coords(
                (#[trigger] q.remove(i)[j]).dst().0,
                q.remove(i)[j].dst().1,
            ),
{
    let rest = q.remove(i);
    assert forall|j: int| 0 <= j < rest.len() implies queue_entry_ok(
        vp,
        resolved,
        #[trigger] rest[j],
    ) && rest[j].cost >= -5 * resolved.dom().len() && vp.rect.contains_coords(
        rest[j].dst().0,
        rest[j].dst().1,
    ) by {
        if j < i {
            assert(rest[j] == q[j]);
        } else {
            assert(rest[j] == q[j + 1]);
        }
    }
}

/// A queue fit for a smaller resolved map is fit for a larger one.
proof fn lemma_queue_grow_ok(
    vp: Viewport,
    r1: Map<(int, int), GlobalView>,
    r2: Map<(int, int), GlobalView>,
    q: Seq<Entry>,
)
    requires
        queue_src_ok(vp, r1, q),
        queue_cost_ok(r1, q),
        r1.dom().subset_of(r2.dom()),
        r1.dom().len() <= r2.dom().len(),
    ensures
        queue_src_ok(vp, r2, q),
        queue_cost_ok(r2, q),
{
    assert forall|j: int| 0 <= j < q.len() implies queue_entry_ok(vp, r2, #[trigger] q[j])
        && q[j].cost >= -5 * r2.dom().len() by {
        assert(queue_entry_ok(vp, r1, q[j]));
        assert(q[j].cost >= -5 * r1.dom().len());
    }
}

/// The per-observer viewing state: for each cell of the current window,
/// the global pose it resolved to this round and whether it is lit, both
/// validated by a generation token rather than cleared between rounds.
pub struct Egosphere {
    global: Grid<Option<GlobalView>>,
    dirty_global: Grid<u64>,
    dirty_token: u64,
    fov: Grid<u64>,
    fullbright: bool,
    explore: Vec<Entry>,
}

impl Egosphere {
    /// The current round's generation token.
    pub closed spec fn spec_token(&self) -> u64 {
        self.dirty_token
    }

    /// Whether visibility gating is bypassed.
    pub closed spec fn spec_fullbright(&self) -> bool {
        self.fullbright
    }

    /// The window the grids currently cover.
    pub closed spec fn spec_rect(&self) -> EgoRect {
        self.global.spec_rect()
    }

    /// The cells resolved in the current round, with their global poses.
    pub closed spec fn resolved(&self) -> Map<(int, int), GlobalView> {
        Map::new(
            |c: (int, int)|
                self.global.spec_rect().contains_coords(c.0, c.1) && self.dirty_global.cell(
                    c.0,
                    c.1,
                ) == self.dirty_token,
            |c: (int, int)| self.global.cell(c.0, c.1).unwrap(),
        )
    }

    /// The cells lit in the current round.
    pub closed spec fn lit(&self) -> Set<(int, int)> {
        Set::new(
            |c: (int, int)|
                self.global.spec_rect().contains_coords(c.0, c.1) && self.fov.cell(c.0, c.1)
                    == self.dirty_token,
        )
    }

    /// What `at` answers: the resolved pose of a cell that was both
    /// resolved this round and (unless `fullbright`) lit this round.
    pub open spec fn at_spec(&self, v: EgoPoint) -> Option<GlobalView> {
        let c = (v.x as int, v.y as int);
        if self.resolved().dom().contains(c) && (self.spec_fullbright() || self.lit().contains(
            c,
        )) {
            Some(self.resolved()[c])
        } else {
            None
        }
    }

    /// Answers come only from the window: every resolved and every lit
    /// cell lies inside `spec_rect()`, in any state.
    pub proof fn lemma_answers_within_window(&self)
        ensures
            forall|c: (int, int)| #[trigger]
                self.resolved().dom().contains(c) ==> self.spec_rect().contains_coords(c.0, c.1),
            forall|c: (int, int)| #[trigger]
                self.lit().contains(c) ==> self.spec_rect().contains_coords(c.0, c.1),
    {
    }

    /// A query outside the current window answers nothing, in any state.
    pub proof fn lemma_at_spec_outside_window(&self, v: EgoPoint)
        requires
            !self.spec_rect().spec_contains(v),
        ensures
            self.at_spec(v) == None::<GlobalView>,
    {
    }

    /// The grids share one well-formed window, and no cell carries a
    /// token from the future: a token equal to the current round's means
    /// the cell was written this round.
    pub closed spec fn wf(&self) -> bool {
        &&& self.global.wf()
        &&& self.dirty_global.wf()
        &&& self.fov.wf()
        &&& self.dirty_global.spec_rect() == self.global.spec_rect()
        &&& self.fov.spec_rect() == self.global.spec_rect()
        &&& forall|cx: int, cy: int|
            self.global.spec_rect().contains_coords(cx, cy) ==> (#[trigger] self.dirty_global.cell(
                cx,
                cy,
            )) <= self.dirty_token
        &&& forall|cx: int, cy: int|
            self.global.spec_rect().contains_coords(cx, cy) && (#[trigger] self.dirty_global.cell(
                cx,
                cy,
            )) == self.dirty_token ==> self.global.cell(cx, cy).is_some()
        &&& forall|cx: int, cy: int|
            self.global.spec_rect().contains_coords(cx, cy) ==> (#[trigger] self.fov.cell(cx, cy))
                <= self.dirty_token
    }

    /// No cell of the window is lit or resolved yet this round.
    spec fn fresh(&self) -> bool {
        &&& forall|cx: int, cy: int|
            self.global.spec_rect().contains_coords(cx, cy) ==> (#[trigger] self.dirty_global.cell(
                cx,
                cy,
            )) < self.dirty_token
        &&& forall|cx: int, cy: int|
            self.global.spec_rect().contains_coords(cx, cy) ==> (#[trigger] self.fov.cell(cx, cy))
                < self.dirty_token
    }

    /// A fresh egosphere over an empty window: before the first
    /// `calculate`, nothing is resolved or lit and every query answers
    /// nothing.
    pub fn new(fullbright: bool) -> (r: Egosphere)
        ensures
            r.wf(),
            r.spec_fullbright() == fullbright,
            r.spec_token() == 0,
            r.spec_rect() == (EgoRect { x: 0, y: 0, w: 0, h: 0 }),
            r.resolved() == Map::<(int, int), GlobalView>::empty(),
            r.lit() == Set::<(int, int)>::empty(),
            forall|v: EgoPoint| r.at_spec(v) == None::<GlobalView>,
    {
        let r = Egosphere {
            global: Grid::new_empty(),
            dirty_global: Grid::new_empty(),
            dirty_token: 0,
            fov: Grid::new_empty(),
            fullbright,
            explore: Vec::new(),
        };
        proof {
            assert(r.resolved() =~= Map::<(int, int), GlobalView>::empty());
            assert(r.lit() =~= Set::<(int, int)>::empty());
        }
        r
    }

    /// Re-seed the grids over `rect` when the window changed shape;
    /// either way, every cell of the window comes out stale.
    fn resize(&mut self, rect: EgoRect, stale: u64)
        requires
            old(self).wf(),
            rect.wf(),
            rect.area() <= usize::MAX,
            stale < old(self).spec_token(),
            old(self).fresh(),
        ensures
            final(self).wf(),
            final(self).fresh(),
            final(self).spec_rect() == rect,
            final(self).spec_token() == old(self).spec_token(),
            final(self).spec_fullbright() == old(self).spec_fullbright(),
            final(self).explore == old(self).explore,
    {
        let r = self.global.rect();
        if r.x == rect.x && r.y == rect.y && r.w == rect.w && r.h == rect.h {
            return ;
        }
        self.global.resize(rect, None);
        self.dirty_global.resize(rect, stale);
        self.fov.resize(rect, stale);
    }

    /// Push the candidate edge from `src` toward the neighbour at
    /// `(ox, oy)`, unless that neighbour is outside the window or already
    /// resolved this round.
    fn enqueue(
        explore: &mut Vec<Entry>,
        global: &Grid<Option<GlobalView>>,
        dirty_global: &Grid<u64>,
        token: u64,
        Ghost(resolved): Ghost<Map<(int, int), GlobalView>>,
        cost: isize,
        src: EgoPoint,
        ox: isize,
        oy: isize,
    )
        requires
            global.wf(),
            dirty_global.wf(),
            dirty_global.spec_rect() == global.spec_rect(),
            -1 <= ox <= 1,
            -1 <= oy <= 1,
            global.spec_rect().spec_contains(src),
            -safe_bound() <= global.spec_rect().x,
            global.spec_rect().x + global.spec_rect().w <= safe_bound(),
            -safe_bound() <= global.spec_rect().y,
            global.spec_rect().y + global.spec_rect().h <= safe_bound(),
            forall|c: (int, int)|
                #[trigger] resolved.dom().contains(c) <==> (global.spec_rect().contains_coords(
                    c.0,
                    c.1,
                ) && dirty_global.cell(c.0, c.1) == token),
        ensures
            final(explore)@ == old(explore)@ + enqueue_effect(
                global.spec_rect(),
                resolved,
                cost,
                src,
                ox as int,
                oy as int,
            ),
    {
        let dst = EgoPoint { x: src.x + ox, y: src.y + oy };
        let ghost effect = enqueue_effect(
            global.spec_rect(),
            resolved,
            cost,
            src,
            ox as int,
            oy as int,
        );
        if global.contains(dst) {
            let t = match dirty_global.get(dst) {
                Some(t) => t,
                None => {
                    proof {
                        assert(false);
                    }
                    0
                },
            };
            if t != token {
                explore.push(
                    Entry { cost, dst_x: dst.x, dst_y: dst.y, src_x: src.x, src_y: src.y },
                );
                proof {
                    assert(!resolved.dom().contains((dst.x as int, dst.y as int)));
                    assert(explore@ =~= old(explore)@ + effect);
                }
            } else {
                proof {
                    assert(resolved.dom().contains((dst.x as int, dst.y as int)));
                    assert(explore@ =~= old(explore)@ + effect);
                }
            }
        } else {
            proof {
                assert(explore@ =~= old(explore)@ + effect);
            }
        }
    }

    /// Push all eight neighbour candidates of the freshly resolved cell
    /// of `e`: orthogonal neighbours one priority step down, diagonal
    /// neighbours four.
    #[verifier::rlimit(100)]
    fn enqueue_neighbors(
        explore: &mut Vec<Entry>,
        global: &Grid<Option<GlobalView>>,
        dirty_global: &Grid<u64>,
        token: u64,
        Ghost(resolved): Ghost<Map<(int, int), GlobalView>>,
        e: Entry,
    )
        requires
            global.wf(),
            dirty_global.wf(),
            dirty_global.spec_rect() == global.spec_rect(),
            global.spec_rect().contains_coords(e.dst().0, e.dst().1),
            -safe_bound() <= global.spec_rect().x,
            global.spec_rect().x + global.spec_rect().w <= safe_bound(),
            -safe_bound() <= global.spec_rect().y,
            global.spec_rect().y + global.spec_rect().h <= safe_bound(),
            isize::MIN + 4 <= e.cost,
            forall|c: (int, int)|
                #[trigger] resolved.dom().contains(c) <==> (global.spec_rect().contains_coords(
                    c.0,
                    c.1,
                ) && dirty_global.cell(c.0, c.1) == token),
        ensures
            final(explore)@ == old(explore)@ + spec_new_entries(
                global.spec_rect(),
                resolved,
                e,
            ),
    {
        let ghost rect = global.spec_rect();
        let ghost base = explore@;
        let dst_pt = EgoPoint { x: e.dst_x, y: e.dst_y };
        let c1 = e.cost - 1;
        let c4 = e.cost - 4;
        Self::enqueue(explore, global, dirty_global, token, Ghost(resolved), c1, dst_pt, 0, -1);
        Self::enqueue(explore, global, dirty_global, token, Ghost(resolved), c1, dst_pt, 0, 1);
        Self::enqueue(explore, global, dirty_global, token, Ghost(resolved), c1, dst_pt, -1, 0);
        Self::enqueue(explore, global, dirty_global, token, Ghost(resolved), c1, dst_pt, 1, 0);
        Self::enqueue(explore, global, dirty_global, token, Ghost(resolved), c4, dst_pt, -1, -1);
        Self::enqueue(explore, global, dirty_global, token, Ghost(resolved), c4, dst_pt, -1, 1);
        Self::enqueue(explore, global, dirty_global, token, Ghost(resolved), c4, dst_pt, 1, -1);
        Self::enqueue(explore, global, dirty_global, token, Ghost(resolved), c4, dst_pt, 1, 1);
        proof {
            assert(enqueue_effect(rect, resolved, c1, dst_pt, 0, -1) == spec_entry_at(
                rect, resolved, e, 0, -1, 1));
            assert(enqueue_effect(rect, resolved, c1, dst_pt, 0, 1) == spec_entry_at(
                rect, resolved, e, 0, 1, 1));
            assert(enqueue_effect(rect, resolved, c1, dst_pt, -1, 0) == spec_entry_at(
                rect, resolved, e, -1, 0, 1));
            assert(enqueue_effect(rect, resolved, c1, dst_pt, 1, 0) == spec_entry_at(
                rect, resolved, e, 1, 0, 1));
            assert(enqueue_effect(rect, resolved, c4, dst_pt, -1, -1) == spec_entry_at(
                rect, resolved, e, -1, -1, 4));
            assert(enqueue_effect(rect, resolved, c4, dst_pt, -1, 1) == spec_entry_at(
                rect, resolved, e, -1, 1, 4));
            assert(enqueue_effect(rect, resolved, c4, dst_pt, 1, -1) == spec_entry_at(
                rect, resolved, e, 1, -1, 4));
            assert(enqueue_effect(rect, resolved, c4, dst_pt, 1, 1) == spec_entry_at(
                rect, resolved, e, 1, 1, 4));
            let s1 = spec_entry_at(rect, resolved, e, 0, -1, 1);
            let s2 = spec_entry_at(rect, resolved, e, 0, 1, 1);
            let s3 = spec_entry_at(rect, resolved, e, -1, 0, 1);
            let s4 = spec_entry_at(rect, resolved, e, 1, 0, 1);
            let s5 = spec_entry_at(rect, resolved, e, -1, -1, 4);
            let s6 = spec_entry_at(rect, resolved, e, -1, 1, 4);
            let s7 = spec_entry_at(rect, resolved, e, 1, -1, 4);
            let s8 = spec_entry_at(rect, resolved, e, 1, 1, 4);
            lemma_seq_assoc(base, s1, s2);
            lemma_seq_assoc(base, s1 + s2, s3);
            lemma_seq_assoc(base, s1 + s2 + s3, s4);
            lemma_seq_assoc(base, s1 + s2 + s3 + s4, s5);
            lemma_seq_assoc(base, s1 + s2 + s3 + s4 + s5, s6);
            lemma_seq_assoc(base, s1 + s2 + s3 + s4 + s5 + s6, s7);
            lemma_seq_assoc(base, s1 + s2 + s3 + s4 + s5 + s6 + s7, s8);
            assert(explore@ == base + spec_new_entries(rect, resolved, e));
        }
    }

    /// The resolution flood fill: seed the observer's cell, then explore
    /// outward, resolving each window cell once by a portal-aware step
    /// from the cell it was first reached from, and stopping propagation
    /// at blocked cells.
    #[verifier::rlimit(100)]
    fn calculate_globalmap<B: BlockedQuery>(
        &mut self,
        viewport: Viewport,
        portals: &Portals,
        blocked: &B,
    )
        requires
            old(self).wf(),
            viewport.wf(),
            portals.wf(),
            old(self).spec_rect() == viewport.rect,
            old(self).fresh(),
        ensures
            final(self).wf(),
            final(self).spec_rect() == old(self).spec_rect(),
            final(self).spec_token() == old(self).spec_token(),
            final(self).spec_fullbright() == old(self).spec_fullbright(),
            final(self).fov == old(self).fov,
            forall|cx: int, cy: int|
                viewport.rect.contains_coords(cx, cy) ==> (#[trigger] final(self).fov.cell(
                    cx,
                    cy,
                )) < final(self).spec_token(),
            final(self).resolved() == spec_resolved_map(viewport, portals@, oracle_of(blocked)),
    {
        let ghost b = oracle_of(blocked);
        let ghost obs_c = viewport.observer_cell();
        self.explore = Vec::new();
        let view = viewport.observer_in_rect;
        self.global.set(view, Some(viewport.observer));
        let seed = Entry { cost: 0, dst_x: view.x, dst_y: view.y, src_x: view.x, src_y: view.y };
        self.explore.push(seed);
        proof {
            assert(self.resolved() =~= Map::<(int, int), GlobalView>::empty());
            assert(self.explore@ =~= seq![seed]);
            assert(spec_explore(
                portals@,
                b,
                viewport.rect,
                viewport.observer,
                self.resolved(),
                self.explore@,
            ) == spec_resolved_map(viewport, portals@, b));
            lemma_cells_of_rect_len(viewport.rect);
        }
        while self.explore.len() != 0
            invariant
                self.wf(),
                viewport.wf(),
                portals.wf(),
                b == oracle_of(blocked),
                obs_c == viewport.observer_cell(),
                seed == (Entry {
                    cost: 0,
                    dst_x: viewport.observer_in_rect.x,
                    dst_y: viewport.observer_in_rect.y,
                    src_x: viewport.observer_in_rect.x,
                    src_y: viewport.observer_in_rect.y,
                }),
                self.spec_rect() == viewport.rect,
                self.spec_token() == old(self).spec_token(),
                self.spec_fullbright() == old(self).spec_fullbright(),
                self.fov == old(self).fov,
                self.global.cell(obs_c.0, obs_c.1) == Some(viewport.observer),
                !self.resolved().dom().contains(obs_c) ==> self.explore@ == seq![seed],
                explore_wf(viewport.rect, self.resolved(), self.explore@),
                spec_explore(
                    portals@,
                    b,
                    viewport.rect,
                    viewport.observer,
                    self.resolved(),
                    self.explore@,
                ) == spec_resolved_map(viewport, portals@, b),
                queue_src_ok(viewport, self.resolved(), self.explore@),
                queue_cost_ok(self.resolved(), self.explore@),
                resolved_bounded(self.resolved()),
            decreases viewport.rect.area() - self.resolved().dom().len(), self.explore@.len(),
        {
            proof {
                lemma_cells_of_rect_len(viewport.rect);
                lemma_len_subset(self.resolved().dom(), cells_of_rect(viewport.rect));
            }
            let ghost q0 = self.explore@;
            let ghost res0 = self.resolved();
            let ghost len0 = res0.dom().len();
            let e = pop_best(&mut self.explore);
            proof {
                lemma_pop_idx_in_range(q0);
                lemma_explore_step(portals@, b, viewport.rect, viewport.observer, res0, q0);
                lemma_queue_remove_ok(viewport, res0, q0, pop_idx(q0));
                assert(e == q0[pop_idx(q0)]);
                assert(queue_entry_ok(viewport, res0, e));
                assert(viewport.rect.contains_coords(e.dst().0, e.dst().1));
            }
            let ghost rest = self.explore@;
            let dst_pt = EgoPoint { x: e.dst_x, y: e.dst_y };
            let src_pt = EgoPoint { x: e.src_x, y: e.src_y };
            let dirty_here = match self.dirty_global.get(dst_pt) {
                Some(t) => t,
                None => {
                    proof {
                        assert(false);
                    }
                    0
                },
            };
            if dirty_here == self.dirty_token {
                proof {
                    assert(res0.dom().contains(e.dst()));
                }
            } else {
                proof {
                    assert(!res0.dom().contains(e.dst()));
                    if !res0.dom().contains(e.src()) {
                        assert(e.src() == obs_c && e.dst() == obs_c);
                    } else {
                        assert(cells_of_rect(viewport.rect).contains(e.src()));
                    }
                }
                let gsrc = match self.global.get(src_pt) {
                    Some(Some(g)) => g,
                    _ => {
                        proof {
                            assert(false);
                        }
                        viewport.observer
                    },
                };
                proof {
                    assert(gsrc == if res0.dom().contains(e.src()) {
                        res0[e.src()]
                    } else {
                        viewport.observer
                    });
                    assert(gsrc.x.bounded(safe_bound() + 2 * len0));
                    assert(safe_bound() + 2 * len0 + 2 <= isize::MAX);
                }
                let off = dst_pt.minus(src_pt);
                let sr = portals.step_offset(gsrc, off);
                let gdst = sr.1;
                proof {
                    lemma_step_offset_bounded(
                        portals@,
                        gsrc,
                        e.dst_x - e.src_x,
                        e.dst_y - e.src_y,
                        safe_bound() + 2 * len0,
                    );
                }
                self.global.set(dst_pt, Some(gdst));
                self.dirty_global.set(dst_pt, self.dirty_token);
                let ghost res2 = res0.insert(e.dst(), gdst);
                proof {
                    assert(self.resolved() =~= res2);
                    assert(res2.dom() =~= res0.dom().insert(e.dst()));
                    assert(res2.dom().len() == len0 + 1);
                    lemma_len_subset(res2.dom(), cells_of_rect(viewport.rect));
                    if e.dst() == obs_c {
                        assert(e == seed);
                        assert(gdst == viewport.observer);
                    }
                    assert(self.global.cell(obs_c.0, obs_c.1) == Some(viewport.observer));
                    assert forall|c: (int, int)| #[trigger] res2.dom().contains(c) implies res2[
                        c].x.bounded(safe_bound() + 2 * res2.dom().len()) by {
                        if c != e.dst() {
                            assert(res0.dom().contains(c));
                        }
                    }
                    lemma_queue_grow_ok(viewport, res0, res2, rest);
                }
                if !blocked.blocked(gdst) {
                    proof {
                        assert forall|c: (int, int)| #[trigger]
                            res2.dom().contains(c) <==> (self.global.spec_rect().contains_coords(
                            c.0,
                            c.1,
                        ) && self.dirty_global.cell(c.0, c.1) == self.dirty_token) by {}
                    }
                    Self::enqueue_neighbors(
                        &mut self.explore,
                        &self.global,
                        &self.dirty_global,
                        self.dirty_token,
                        Ghost(res2),
                        e,
                    );
                    proof {
                        let ghost ne = spec_new_entries(viewport.rect, res2, e);
                        assert(self.explore@ == rest + ne);
                        lemma_new_entries_step_ok(viewport.rect, res2, e);
                        lemma_new_entries_in_rect(viewport.rect, res2, e);
                        assert forall|j: int| 0 <= j < ne.len() implies queue_entry_ok(
                            viewport,
                            res2,
                            #[trigger] ne[j],
                        ) && ne[j].cost >= -5 * res2.dom().len() by {
                            assert(entry_step_ok(e, ne[j]));
                        }
                        assert forall|j: int| 0 <= j < self.explore@.len() implies queue_entry_ok(
                            viewport,
                            res2,
                            #[trigger] self.explore@[j],
                        ) && viewport.rect.contains_coords(
                            self.explore@[j].dst().0,
                            self.explore@[j].dst().1,
                        ) && self.explore@[j].cost >= -5 * res2.dom().len() by {
                            if j < rest.len() {
                                assert(self.explore@[j] == rest[j]);
                            } else {
                                assert(self.explore@[j] == ne[j - rest.len()]);
                            }
                        }
                    }
                } else {
                    proof {
                        assert(b(gdst));
                    }
                }
            }
        }
    }

    /// Shadowcasting: build the window's blocking flags from the resolved
    /// map and the caller's oracle, run the field-of-view computation from
    /// the observer's cell, and stamp every visible window cell with this
    /// round's token.  Skipped entirely under `fullbright`.
    #[verifier::rlimit(100)]
    fn calculate_fov<B: BlockedQuery>(&mut self, viewport: Viewport, blocked: &B)
        requires
            old(self).wf(),
            viewport.wf(),
            old(self).spec_rect() == viewport.rect,
            forall|cx: int, cy: int|
                viewport.rect.contains_coords(cx, cy) ==> (#[trigger] old(self).fov.cell(cx, cy))
                    < old(self).spec_token(),
        ensures
            final(self).wf(),
            final(self).spec_rect() == old(self).spec_rect(),
            final(self).spec_token() == old(self).spec_token(),
            final(self).spec_fullbright() == old(self).spec_fullbright(),
            final(self).resolved() == old(self).resolved(),
            !final(self).spec_fullbright() ==> final(self).lit() == fov_set(
                viewport.observer_cell().0,
                viewport.observer_cell().1,
                Map::total(
                    |c: (int, int)|
                        !old(self).resolved().dom().contains(c) || oracle_of(blocked)(
                            old(self).resolved()[c],
                        ),
                ),
            ).intersect(cells_of_rect(viewport.rect)),
    {
        if self.fullbright {
            return ;
        }
        let ghost b = oracle_of(blocked);
        let ghost res = self.resolved();
        let mut bg: Grid<bool> = Grid::new_empty();
        proof {
            assert(0 <= viewport.rect.area()) by (nonlinear_arith)
                requires
                    0 <= viewport.rect.w,
                    0 <= viewport.rect.h,
            {
            }
        }
        bg.resize(viewport.rect, true);
        let mut y: isize = viewport.rect.y;
        while y < viewport.rect.y + viewport.rect.h
            invariant
                self.wf(),
                viewport.wf(),
                self == old(self),
                b == oracle_of(blocked),
                res == self.resolved(),
                self.spec_rect() == viewport.rect,
                bg.wf(),
                bg.spec_rect() == viewport.rect,
                viewport.rect.y <= y <= viewport.rect.y + viewport.rect.h,
                forall|cx: int, cy: int|
                    viewport.rect.contains_coords(cx, cy) && cy < y ==> (#[trigger] bg.cell(
                        cx,
                        cy,
                    )) == (!res.dom().contains((cx, cy)) || b(res[(cx, cy)])),
            decreases viewport.rect.y + viewport.rect.h - y,
        {
            let mut x: isize = viewport.rect.x;
            while x < viewport.rect.x + viewport.rect.w
                invariant
                    self.wf(),
                    viewport.wf(),
                    self == old(self),
                    b == oracle_of(blocked),
                    res == self.resolved(),
                    self.spec_rect() == viewport.rect,
                    bg.wf(),
                    bg.spec_rect() == viewport.rect,
                    viewport.rect.y <= y < viewport.rect.y + viewport.rect.h,
                    viewport.rect.x <= x <= viewport.rect.x + viewport.rect.w,
                    forall|cx: int, cy: int|
                        viewport.rect.contains_coords(cx, cy) && (cy < y || (cy == y && cx < x))
                            ==> (#[trigger] bg.cell(cx, cy)) == (!res.dom().contains((cx, cy))
                            || b(res[(cx, cy)])),
                decreases viewport.rect.x + viewport.rect.w - x,
            {
                let p = EgoPoint { x, y };
                let dirty_here = match self.dirty_global.get(p) {
                    Some(t) => t,
                    None => {
                        proof {
                            assert(false);
                        }
                        0
                    },
                };
                let bval: bool = if dirty_here == self.dirty_token {
                    let g = match self.global.get(p) {
                        Some(Some(g)) => g,
                        _ => {
                            proof {
                                assert(false);
                            }
                            viewport.observer
                        },
                    };
                    blocked.blocked(g)
                } else {
                    true
                };
                proof {
                    assert(bval == (!res.dom().contains((x as int, y as int)) || b(
                        res[(x as int, y as int)],
                    )));
                }
                bg.set(p, bval);
                x = x + 1;
            }
            y = y + 1;
        }
        proof {
            assert(fov_oracle(bg) =~= Map::total(
                |c: (int, int)| !res.dom().contains(c) || b(res[c]),
            ));
        }
        let marks = run_shadowcast(viewport.observer_in_rect.x, viewport.observer_in_rect.y, &bg);
        let n = marks.len();
        let mut i: usize = 0;
        while i < n
            invariant
                self.wf(),
                viewport.wf(),
                self.global == old(self).global,
                self.dirty_global == old(self).dirty_global,
                self.dirty_token == old(self).dirty_token,
                self.fullbright == old(self).fullbright,
                self.explore == old(self).explore,
                self.spec_rect() == viewport.rect,
                n == marks@.len(),
                i <= n,
                forall|c: (int, int)|
                    viewport.rect.contains_coords(c.0, c.1) ==> ((#[trigger] self.fov.cell(
                        c.0,
                        c.1,
                    )) == self.dirty_token <==> mark_hit(marks@, i as int, c)),
            decreases n - i,
        {
            let mk = marks[i];
            let ghost fov0 = self.fov;
            let p = EgoPoint { x: mk.0, y: mk.1 };
            if self.fov.contains(p) {
                self.fov.set(p, self.dirty_token);
            }
            proof {
                assert forall|c: (int, int)| viewport.rect.contains_coords(c.0, c.1) implies ((
                #[trigger] self.fov.cell(c.0, c.1)) == self.dirty_token <==> mark_hit(
                    marks@,
                    i as int + 1,
                    c,
                )) by {
                    if c == ((mk.0 as int, mk.1 as int)) {
                        assert(((marks@[i as int]).0 as int, (marks@[i as int]).1 as int) == c);
                        assert(mark_hit(marks@, i as int + 1, c));
                        assert(self.fov.cell(c.0, c.1) == self.dirty_token);
                    } else {
                        assert(self.fov.cell(c.0, c.1) == fov0.cell(c.0, c.1));
                        if mark_hit(marks@, i as int + 1, c) {
                            let j = choose|j: int|
                                0 <= j < i + 1 && ((#[trigger] marks@[j]).0 as int, marks@[j].1
                                    as int) == c;
                            assert(j < i);
                            assert(mark_hit(marks@, i as int, c));
                        }
                        if mark_hit(marks@, i as int, c) {
                            let j = choose|j: int|
                                0 <= j < i && ((#[trigger] marks@[j]).0 as int, marks@[j].1
                                    as int) == c;
                            assert(mark_hit(marks@, i as int + 1, c));
                        }
                    }
                }
            }
            i = i + 1;
        }
        proof {
            assert forall|c: (int, int)| #[trigger] self.lit().contains(c) <==> (marks_set(
                marks@,
            ).intersect(cells_of_rect(viewport.rect))).contains(c) by {
                lemma_marks_set_hit(marks@, c);
            }
            assert(self.lit() =~= marks_set(marks@).intersect(cells_of_rect(viewport.rect)));
        }
    }

    /// One viewing round: re-seed the grids over the window (when its
    /// shape changed), advance the generation token, resolve every
    /// reachable window cell to its global pose through the portal graph,
    /// and compute visibility.
    pub fn calculate<B: BlockedQuery>(&mut self, viewport: Viewport, portals: &Portals, blocked: &B)
        requires
            old(self).wf(),
            viewport.wf(),
            portals.wf(),
            old(self).spec_token() < u64::MAX,
        ensures
            final(self).wf(),
            final(self).spec_token() == old(self).spec_token() + 1,
            final(self).spec_fullbright() == old(self).spec_fullbright(),
            final(self).spec_rect() == viewport.rect,
            final(self).resolved() == spec_resolved_map(viewport, portals@, oracle_of(blocked)),
            !final(self).spec_fullbright() ==> final(self).lit() == spec_lit(
                viewport,
                portals@,
                oracle_of(blocked),
            ),
    {
        let stale = self.dirty_token;
        self.dirty_token = stale + 1;
        proof {
            assert(self.wf());
            assert(self.fresh());
            assert(0 <= viewport.rect.area()) by (nonlinear_arith)
                requires
                    0 <= viewport.rect.w,
                    0 <= viewport.rect.h,
            {
            }
        }
        self.resize(viewport.rect, stale);
        self.calculate_globalmap(viewport, portals, blocked);
        let ghost res = self.resolved();
        self.calculate_fov(viewport, blocked);
        proof {
            if !self.fullbright {
                let b = oracle_of(blocked);
                let m1 = Map::total(
                    |c: (int, int)| !res.dom().contains(c) || oracle_of(blocked)(res[c]),
                );
                let m2 = Map::total(
                    |c: (int, int)|
                        !spec_resolved_map(viewport, portals@, b).dom().contains(c) || b(
                            spec_resolved_map(viewport, portals@, b)[c],
                        ),
                );
                assert(m1 =~= m2);
                assert(self.lit() == spec_lit(viewport, portals@, b));
            }
        }
    }

    /// The resolved pose of `v` this round, gated by visibility unless
    /// `fullbright` is set; nothing when the cell is outside the window,
    /// was not reached this round, or is not currently visible.
    pub fn at(&self, v: EgoPoint) -> (r: Option<GlobalView>)
        requires
            self.wf(),
        ensures
            r == self.at_spec(v),
    {
        if self.fullbright {
            self.at_fullbright(v)
        } else {
            self.at_fov(v)
        }
    }

    /// The resolved pose of `v` this round, ignoring visibility.
    fn at_fullbright(&self, v: EgoPoint) -> (r: Option<GlobalView>)
        requires
            self.wf(),
        ensures
            r == if self.resolved().dom().contains((v.x as int, v.y as int)) {
                Some(self.resolved()[(v.x as int, v.y as int)])
            } else {
                None::<GlobalView>
            },
    {
        match self.global.get(v) {
            Some(Some(p)) => {
                match self.dirty_global.get(v) {
                    Some(tok) => if tok == self.dirty_token {
                        Some(p)
                    } else {
                        None
                    },
                    None => None,
                }
            },
            _ => None,
        }
    }

    /// The resolved pose of `v` this round, gated by visibility.
    fn at_fov(&self, v: EgoPoint) -> (r: Option<GlobalView>)
        requires
            self.wf(),
        ensures
            r == if self.resolved().dom().contains((v.x as int, v.y as int)) && self.lit().contains(
                (v.x as int, v.y as int),
            ) {
                Some(self.resolved()[(v.x as int, v.y as int)])
            } else {
                None::<GlobalView>
            },
    {
        match self.fov.get(v) {
            Some(fov_tok) => if fov_tok == self.dirty_token {
                self.at_fullbright(v)
            } else {
                None
            },
            None => None,
        }
    }
}

/// Egosphere determinism: two rounds computed from the same observer,
/// window, portal graph and blocked oracle answer every query alike,
/// whatever state either egosphere held before its round.
pub proof fn lemma_calculate_deterministic(
    one: &Egosphere,
    two: &Egosphere,
    vp: Viewport,
    p: PortalsV,
    blocked: spec_fn(GlobalView) -> bool,
    v: EgoPoint,
)
    requires
        one.spec_fullbright() == two.spec_fullbright(),
        one.resolved() == spec_resolved_map(vp, p, blocked),
        two.resolved() == spec_resolved_map(vp, p, blocked),
        !one.spec_fullbright() ==> one.lit() == spec_lit(vp, p, blocked),
        !two.spec_fullbright() ==> two.lit() == spec_lit(vp, p, blocked),
    ensures
        one.at_spec(v) == two.at_spec(v),
{
}

/// Occlusion propagates: every cell a round resolves is the observer's
/// own cell or is reached from it through a chain of adjacent cells that
/// resolved and are not blocked.  In particular, a cell whose every
/// approach passes through a blocked cell does not resolve.
pub proof fn lemma_resolved_reachable(
    vp: Viewport,
    p: PortalsV,
    blocked: spec_fn(GlobalView) -> bool,
    c: (int, int),
)
    requires
        vp.wf(),
        spec_resolved_map(vp, p, blocked).dom().contains(c),
    ensures
        exists|n: nat|
            reach(spec_resolved_map(vp, p, blocked), blocked, vp.observer_cell(), c, n),
{
    let seed = Entry {
        cost: 0,
        dst_x: vp.observer_in_rect.x,
        dst_y: vp.observer_in_rect.y,
        src_x: vp.observer_in_rect.x,
        src_y: vp.observer_in_rect.y,
    };
    let q0 = seq![seed];
    let r0 = Map::<(int, int), GlobalView>::empty();
    assert(explore_wf(vp.rect, r0, q0)) by {
        assert(r0.dom() =~= Set::<(int, int)>::empty());
        assert(forall|i: int|
            0 <= i < q0.len() ==> vp.rect.contains_coords(
                (#[trigger] q0[i]).dst().0,
                q0[i].dst().1,
            ));
    }
    assert(queue_reach_ok(r0, blocked, vp.observer_cell(), q0)) by {
        assert(q0[0].dst() == vp.observer_cell() && q0[0].src() == vp.observer_cell());
    }
    lemma_explore_reachable(p, blocked, vp.rect, vp.observer, r0, q0, vp.observer_cell());
}

} // verus!
