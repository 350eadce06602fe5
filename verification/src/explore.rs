use vstd::prelude::*;

use crate::geom::EgoRect;
use crate::geom::GlobalView;
use crate::portals::PortalsV;
use vstd::set_lib::lemma_len_subset;

verus! {

/// A pending flood-fill edge: resolve the cell at `(dst_x, dst_y)` by a
/// single portal-aware step from the already-resolved cell at
/// `(src_x, src_y)`.  Higher `cost` explores first.
#[derive(Clone, Copy, Debug, PartialEq, Eq, Structural)]
pub struct Entry {
    pub cost: isize,
    pub dst_x: isize,
    pub dst_y: isize,
    pub src_x: isize,
    pub src_y: isize,
}

impl Entry {
    /// The destination cell as mathematical coordinates.
    pub open spec fn dst(self) -> (int, int) {
        (self.dst_x as int, self.dst_y as int)
    }

    /// The source cell as mathematical coordinates.
    pub open spec fn src(self) -> (int, int) {
        (self.src_x as int, self.src_y as int)
    }
}

/// The strict priority order on pending edges: the lexicographic order on
/// (cost, destination, source).
pub open spec fn entry_lt(a: Entry, b: Entry) -> bool {
    ||| a.cost < b.cost
    ||| (a.cost == b.cost && a.dst_x < b.dst_x)
    ||| (a.cost == b.cost && a.dst_x == b.dst_x && a.dst_y < b.dst_y)
    ||| (a.cost == b.cost && a.dst_x == b.dst_x && a.dst_y == b.dst_y && a.src_x < b.src_x)
    ||| (a.cost == b.cost && a.dst_x == b.dst_x && a.dst_y == b.dst_y && a.src_x == b.src_x
        && a.src_y < b.src_y)
}

fn entry_gt(a: &Entry, b: &Entry) -> (r: bool)
    ensures
        r == entry_lt(*b, *a),
{
    if b.cost != a.cost {
        b.cost < a.cost
    } else if b.dst_x != a.dst_x {
        b.dst_x < a.dst_x
    } else if b.dst_y != a.dst_y {
        b.dst_y < a.dst_y
    } else if b.src_x != a.src_x {
        b.src_x < a.src_x
    } else {
        b.src_y < a.src_y
    }
}

/// The index the exploration queue pops next: the first occurrence of the
/// greatest entry.
pub open spec fn pop_idx(q: Seq<Entry>) -> int
    decreases q.len(),
{
    if q.len() <= 1 {
        0
    } else {
        let j = pop_idx(q.drop_last());
        if entry_lt(q[j], q.last()) {
            q.len() - 1
        } else {
            j
        }
    }
}

pub proof fn lemma_pop_idx_in_range(q: Seq<Entry>)
    requires
        q.len() > 0,
    ensures
        0 <= pop_idx(q) < q.len(),
    decreases q.len(),
{
    if q.len() > 1 {
        lemma_pop_idx_in_range(q.drop_last());
    }
}

/// Remove and return the entry at `pop_idx`, scanning for the first
/// occurrence of the greatest entry.
pub(crate) fn pop_best(q: &mut Vec<Entry>) -> (r: Entry)
    requires
        old(q)@.len() > 0,
    ensures
        r == old(q)@[pop_idx(old(q)@)],
        final(q)@ == old(q)@.remove(pop_idx(old(q)@)),
{
    proof {
        lemma_pop_idx_in_range(q@);
    }
    let mut best: usize = 0;
    let mut k: usize = 1;
    while k < q.len()
        invariant
            q@ == old(q)@,
            1 <= k <= q@.len(),
            best < k,
            best as int == pop_idx(q@.take(k as int)),
        decreases q@.len() - k,
    {
        let ghost prefix = q@.take(k as int);
        if entry_gt(&q[k], &q[best]) {
            best = k;
        }
        proof {
            lemma_pop_idx_in_range(prefix);
            assert(q@.take(k as int + 1).drop_last() =~= prefix);
            assert(q@.take(k as int + 1).last() == q@[k as int]);
            assert(q@.take(k as int + 1)[pop_idx(prefix)] == q@[pop_idx(prefix)]);
            assert(prefix[pop_idx(prefix)] == q@[pop_idx(prefix)]);
        }
        k = k + 1;
    }
    proof {
        assert(q@.take(q@.len() as int) =~= q@);
    }
    let r = q.remove(best);
    r
}

/// The cells of the window, as a set.
pub open spec fn cells_of_rect(rect: EgoRect) -> Set<(int, int)> {
    Set::new(|c: (int, int)| rect.contains_coords(c.0, c.1))
}

spec fn cells_upto_partial(rect: EgoRect, yc: int, xw: int) -> Set<(int, int)> {
    Set::new(
        |c: (int, int)|
            (rect.x <= c.0 < rect.x + rect.w && rect.y <= c.1 < yc) || (rect.x <= c.0 < xw
                && c.1 == yc && rect.y <= yc),
    )
}

proof fn lemma_cells_partial_len(rect: EgoRect, yc: int, xw: int)
    requires
        rect.wf(),
        rect.y <= yc,
        rect.x <= xw <= rect.x + rect.w,
    ensures
        cells_upto_partial(rect, yc, xw).finite(),
        cells_upto_partial(rect, yc, xw).len() == (yc - rect.y) * rect.w + (xw - rect.x),
    decreases yc - rect.y + 1, xw - rect.x,
{
    if xw > rect.x {
        lemma_cells_partial_len(rect, yc, xw - 1);
        assert(cells_upto_partial(rect, yc, xw) =~= cells_upto_partial(rect, yc, xw - 1).insert(
            ((xw - 1), yc),
        ));
        assert(!cells_upto_partial(rect, yc, xw - 1).contains(((xw - 1), yc)));
    } else if yc == rect.y {
        assert(cells_upto_partial(rect, yc, xw) =~= Set::<(int, int)>::empty());
    } else {
        lemma_cells_partial_len(rect, yc - 1, rect.x + rect.w);
        assert(cells_upto_partial(rect, yc, rect.x as int) =~= cells_upto_partial(
            rect,
            yc - 1,
            rect.x + rect.w,
        ));
        assert((yc - rect.y) * rect.w == (yc - 1 - rect.y) * rect.w + rect.w) by (nonlinear_arith);
    }
}

/// A well-formed window holds exactly `area` cells.
pub proof fn lemma_cells_of_rect_len(rect: EgoRect)
    requires
        rect.wf(),
    ensures
        cells_of_rect(rect).finite(),
        cells_of_rect(rect).len() == rect.area(),
{
    lemma_cells_partial_len(rect, rect.y + rect.h, rect.x as int);
    assert(cells_of_rect(rect) =~= cells_upto_partial(rect, rect.y + rect.h, rect.x as int));
    assert((rect.y + rect.h - rect.y) * rect.w == rect.h * rect.w);
    assert(rect.h * rect.w == rect.area()) by (nonlinear_arith);
}

/// Conditions under which the flood-fill recursion is well defined: the
/// window is well formed, the resolved cells form a finite subset of it,
/// and every pending destination lies inside it.
pub open spec fn explore_wf(
    rect: EgoRect,
    resolved: Map<(int, int), GlobalView>,
    queue: Seq<Entry>,
) -> bool {
    &&& rect.wf()
    &&& resolved.dom().finite()
    &&& resolved.dom().subset_of(cells_of_rect(rect))
    &&& forall|i: int|
        0 <= i < queue.len() ==> rect.contains_coords(
            (#[trigger] queue[i]).dst().0,
            queue[i].dst().1,
        )
}

/// The candidate edge toward the neighbour of `e.dst` at offset
/// `(ox, oy)`, its priority lowered by `step`, kept only when the
/// neighbour is an unresolved window cell.
pub open spec fn spec_entry_at(
    rect: EgoRect,
    resolved: Map<(int, int), GlobalView>,
    e: Entry,
    ox: int,
    oy: int,
    step: int,
) -> Seq<Entry> {
    let dx = e.dst_x + ox;
    let dy = e.dst_y + oy;
    if rect.contains_coords(dx, dy) && !resolved.dom().contains((dx, dy)) {
        seq![
            Entry {
                cost: (e.cost - step) as isize,
                dst_x: dx as isize,
                dst_y: dy as isize,
                src_x: e.dst_x,
                src_y: e.dst_y,
            },
        ]
    } else {
        Seq::empty()
    }
}

/// The eight neighbour candidates of a freshly resolved cell: orthogonal
/// neighbours one priority step down, diagonal neighbours four, in a
/// fixed order.
pub open spec fn spec_new_entries(
    rect: EgoRect,
    resolved: Map<(int, int), GlobalView>,
    e: Entry,
) -> Seq<Entry> {
    spec_entry_at(rect, resolved, e, 0, -1, 1) + spec_entry_at(rect, resolved, e, 0, 1, 1)
        + spec_entry_at(rect, resolved, e, -1, 0, 1) + spec_entry_at(rect, resolved, e, 1, 0, 1)
        + spec_entry_at(rect, resolved, e, -1, -1, 4) + spec_entry_at(rect, resolved, e, -1, 1, 4)
        + spec_entry_at(rect, resolved, e, 1, -1, 4) + spec_entry_at(rect, resolved, e, 1, 1, 4)
}

/// What one flood-fill round resolves, defined one pop at a time: take
/// the greatest pending edge; discard it if its destination is already
/// resolved (first finalization wins); otherwise resolve the destination
/// by a portal-aware step from its source and, unless the caller's oracle
/// blocks the resolved pose, enqueue its neighbours.  The observer stands
/// for the seed edge's source, which no map entry resolves yet.
#[verifier::rlimit(100)]
pub open spec fn spec_explore(
    p: PortalsV,
    blocked: spec_fn(GlobalView) -> bool,
    rect: EgoRect,
    observer: GlobalView,
    resolved: Map<(int, int), GlobalView>,
    queue: Seq<Entry>,
) -> Map<(int, int), GlobalView>
    decreases rect.area() - resolved.dom().len(), queue.len()
        when explore_wf(rect, resolved, queue)
        via spec_explore_decreases
{
    if queue.len() == 0 {
        resolved
    } else {
        let i = pop_idx(queue);
        let e = queue[i];
        let rest = queue.remove(i);
        if resolved.dom().contains(e.dst()) {
            spec_explore(p, blocked, rect, observer, resolved, rest)
        } else {
            let gsrc = if resolved.dom().contains(e.src()) {
                resolved[e.src()]
            } else {
                observer
            };
            let gdst = p.spec_step_offset(gsrc, e.dst_x - e.src_x, e.dst_y - e.src_y).1;
            let r2 = resolved.insert(e.dst(), gdst);
            if blocked(gdst) {
                spec_explore(p, blocked, rect, observer, r2, rest)
            } else {
                spec_explore(p, blocked, rect, observer, r2, rest + spec_new_entries(rect, r2, e))
            }
        }
    }
}

/// Entries remaining after a removal still aim at window cells.
proof fn lemma_remove_keeps_in_rect(rect: EgoRect, queue: Seq<Entry>, i: int)
    requires
        0 <= i < queue.len(),
        forall|j: int|
            0 <= j < queue.len() ==> rect.contains_coords(
                (#[trigger] queue[j]).dst().0,
                queue[j].dst().1,
            ),
    ensures
        forall|j: int|
            0 <= j < queue.remove(i).len() ==> rect.contains_coords(
                (#[trigger] queue.remove(i)[j]).dst().0,
                queue.remove(i)[j].dst().1,
            ),
{
    assert forall|j: int| 0 <= j < queue.remove(i).len() implies rect.contains_coords(
        (#[trigger] queue.remove(i)[j]).dst().0,
        queue.remove(i)[j].dst().1,
    ) by {
        if j < i {
            assert(queue.remove(i)[j] == queue[j]);
        } else {
            assert(queue.remove(i)[j] == queue[j + 1]);
        }
    }
}

/// A single neighbour candidate aims at a window cell.
proof fn lemma_entry_at_in_rect(
    rect: EgoRect,
    resolved: Map<(int, int), GlobalView>,
    e: Entry,
    ox: int,
    oy: int,
    step: int,
)
    requires
        rect.wf(),
    ensures
        forall|j: int|
            0 <= j < spec_entry_at(rect, resolved, e, ox, oy, step).len() ==> rect.contains_coords(
                (#[trigger] spec_entry_at(rect, resolved, e, ox, oy, step)[j]).dst().0,
                spec_entry_at(rect, resolved, e, ox, oy, step)[j].dst().1,
            ),
{
    let s = spec_entry_at(rect, resolved, e, ox, oy, step);
    if s.len() > 0 {
        let dx = e.dst_x + ox;
        let dy = e.dst_y + oy;
        assert(rect.contains_coords(dx, dy));
        assert(s[0].dst() == (dx, dy));
    }
}

/// Fresh neighbour candidates aim at window cells.
pub proof fn lemma_new_entries_in_rect(rect: EgoRect, resolved: Map<(int, int), GlobalView>, e: Entry)
    requires
        rect.wf(),
    ensures
        forall|j: int|
            0 <= j < spec_new_entries(rect, resolved, e).len() ==> rect.contains_coords(
                (#[trigger] spec_new_entries(rect, resolved, e)[j]).dst().0,
                spec_new_entries(rect, resolved, e)[j].dst().1,
            ),
{
    let s1 = spec_entry_at(rect, resolved, e, 0, -1, 1);
    let s2 = spec_entry_at(rect, resolved, e, 0, 1, 1);
    let s3 = spec_entry_at(rect, resolved, e, -1, 0, 1);
    let s4 = spec_entry_at(rect, resolved, e, 1, 0, 1);
    let s5 = spec_entry_at(rect, resolved, e, -1, -1, 4);
    let s6 = spec_entry_at(rect, resolved, e, -1, 1, 4);
    let s7 = spec_entry_at(rect, resolved, e, 1, -1, 4);
    let s8 = spec_entry_at(rect, resolved, e, 1, 1, 4);
    lemma_entry_at_in_rect(rect, resolved, e, 0, -1, 1);
    lemma_entry_at_in_rect(rect, resolved, e, 0, 1, 1);
    lemma_entry_at_in_rect(rect, resolved, e, -1, 0, 1);
    lemma_entry_at_in_rect(rect, resolved, e, 1, 0, 1);
    lemma_entry_at_in_rect(rect, resolved, e, -1, -1, 4);
    lemma_entry_at_in_rect(rect, resolved, e, -1, 1, 4);
    lemma_entry_at_in_rect(rect, resolved, e, 1, -1, 4);
    lemma_entry_at_in_rect(rect, resolved, e, 1, 1, 4);
    lemma_add_keeps_in_rect(rect, s1, s2);
    lemma_add_keeps_in_rect(rect, s1 + s2, s3);
    lemma_add_keeps_in_rect(rect, s1 + s2 + s3, s4);
    lemma_add_keeps_in_rect(rect, s1 + s2 + s3 + s4, s5);
    lemma_add_keeps_in_rect(rect, s1 + s2 + s3 + s4 + s5, s6);
    lemma_add_keeps_in_rect(rect, s1 + s2 + s3 + s4 + s5 + s6, s7);
    lemma_add_keeps_in_rect(rect, s1 + s2 + s3 + s4 + s5 + s6 + s7, s8);
}

/// Concatenating two runs of window-aimed entries stays window-aimed.
proof fn lemma_add_keeps_in_rect(rect: EgoRect, a: Seq<Entry>, b: Seq<Entry>)
    requires
        forall|j: int|
            0 <= j < a.len() ==> rect.contains_coords((#[trigger] a[j]).dst().0, a[j].dst().1),
        forall|j: int|
            0 <= j < b.len() ==> rect.contains_coords((#[trigger] b[j]).dst().0, b[j].dst().1),
    ensures
        forall|j: int|
            0 <= j < (a + b).len() ==> rect.contains_coords(
                (#[trigger] (a + b)[j]).dst().0,
                (a + b)[j].dst().1,
            ),
{
    assert forall|j: int| 0 <= j < (a + b).len() implies rect.contains_coords(
        (#[trigger] (a + b)[j]).dst().0,
        (a + b)[j].dst().1,
    ) by {
        if j < a.len() {
            assert((a + b)[j] == a[j]);
        } else {
            assert((a + b)[j] == b[j - a.len()]);
        }
    }
}

#[via_fn]
proof fn spec_explore_decreases(
    p: PortalsV,
    blocked: spec_fn(GlobalView) -> bool,
    rect: EgoRect,
    observer: GlobalView,
    resolved: Map<(int, int), GlobalView>,
    queue: Seq<Entry>,
) {
    lemma_cells_of_rect_len(rect);
    lemma_len_subset(resolved.dom(), cells_of_rect(rect));
    if queue.len() > 0 {
        lemma_pop_idx_in_range(queue);
        let i = pop_idx(queue);
        let e = queue[i];
        let rest = queue.remove(i);
        lemma_remove_keeps_in_rect(rect, queue, i);
        if !resolved.dom().contains(e.dst()) {
            let gsrc = if resolved.dom().contains(e.src()) {
                resolved[e.src()]
            } else {
                observer
            };
            let gdst = p.spec_step_offset(gsrc, e.dst_x - e.src_x, e.dst_y - e.src_y).1;
            let r2 = resolved.insert(e.dst(), gdst);
            assert(r2.dom() =~= resolved.dom().insert(e.dst()));
            assert(rect.contains_coords(e.dst().0, e.dst().1));
            assert(r2.dom().subset_of(cells_of_rect(rect)));
            lemma_len_subset(r2.dom(), cells_of_rect(rect));
            assert(r2.dom().len() == resolved.dom().len() + 1);
            lemma_new_entries_in_rect(rect, r2, e);
            lemma_add_keeps_in_rect(rect, rest, spec_new_entries(rect, r2, e));
        }
    }
}

/// The facts the flood fill needs of a fresh candidate relative to the
/// entry whose resolution produced it: it starts at that entry's
/// destination, moves a single cell, and its priority dropped by at most
/// four.
pub open spec fn entry_step_ok(e: Entry, ne: Entry) -> bool {
    &&& ne.src() == e.dst()
    &&& ne.dst() != ne.src()
    &&& -1 <= ne.dst_x - ne.src_x <= 1
    &&& -1 <= ne.dst_y - ne.src_y <= 1
    &&& e.cost - 4 <= ne.cost
}

/// A predicate true of every element of two runs is true of their
/// concatenation.
pub proof fn lemma_seq_add_pred(pred: spec_fn(Entry) -> bool, a: Seq<Entry>, b: Seq<Entry>)
    requires
        forall|j: int| 0 <= j < a.len() ==> pred(#[trigger] a[j]),
        forall|j: int| 0 <= j < b.len() ==> pred(#[trigger] b[j]),
    ensures
        forall|j: int| 0 <= j < (a + b).len() ==> pred(#[trigger] (a + b)[j]),
{
    assert forall|j: int| 0 <= j < (a + b).len() implies pred(#[trigger] (a + b)[j]) by {
        if j < a.len() {
            assert((a + b)[j] == a[j]);
        } else {
            assert((a + b)[j] == b[j - a.len()]);
        }
    }
}

/// Fresh neighbour candidates satisfy `entry_step_ok` relative to the
/// entry that produced them.
pub proof fn lemma_new_entries_step_ok(
    rect: EgoRect,
    resolved: Map<(int, int), GlobalView>,
    e: Entry,
)
    requires
        rect.wf(),
        isize::MIN + 4 <= e.cost,
    ensures
        forall|j: int|
            0 <= j < spec_new_entries(rect, resolved, e).len() ==> entry_step_ok(
                e,
                #[trigger] spec_new_entries(rect, resolved, e)[j],
            ),
{
    let pred = |ne: Entry| entry_step_ok(e, ne);
    let s1 = spec_entry_at(rect, resolved, e, 0, -1, 1);
    let s2 = spec_entry_at(rect, resolved, e, 0, 1, 1);
    let s3 = spec_entry_at(rect, resolved, e, -1, 0, 1);
    let s4 = spec_entry_at(rect, resolved, e, 1, 0, 1);
    let s5 = spec_entry_at(rect, resolved, e, -1, -1, 4);
    let s6 = spec_entry_at(rect, resolved, e, -1, 1, 4);
    let s7 = spec_entry_at(rect, resolved, e, 1, -1, 4);
    let s8 = spec_entry_at(rect, resolved, e, 1, 1, 4);
    assert(forall|j: int| 0 <= j < s1.len() ==> pred(#[trigger] s1[j]));
    assert(forall|j: int| 0 <= j < s2.len() ==> pred(#[trigger] s2[j]));
    assert(forall|j: int| 0 <= j < s3.len() ==> pred(#[trigger] s3[j]));
    assert(forall|j: int| 0 <= j < s4.len() ==> pred(#[trigger] s4[j]));
    assert(forall|j: int| 0 <= j < s5.len() ==> pred(#[trigger] s5[j]));
    assert(forall|j: int| 0 <= j < s6.len() ==> pred(#[trigger] s6[j]));
    assert(forall|j: int| 0 <= j < s7.len() ==> pred(#[trigger] s7[j]));
    assert(forall|j: int| 0 <= j < s8.len() ==> pred(#[trigger] s8[j]));
    lemma_seq_add_pred(pred, s1, s2);
    lemma_seq_add_pred(pred, s1 + s2, s3);
    lemma_seq_add_pred(pred, s1 + s2 + s3, s4);
    lemma_seq_add_pred(pred, s1 + s2 + s3 + s4, s5);
    lemma_seq_add_pred(pred, s1 + s2 + s3 + s4 + s5, s6);
    lemma_seq_add_pred(pred, s1 + s2 + s3 + s4 + s5 + s6, s7);
    lemma_seq_add_pred(pred, s1 + s2 + s3 + s4 + s5 + s6 + s7, s8);
    assert forall|j: int| 0 <= j < spec_new_entries(rect, resolved, e).len() implies entry_step_ok(
        e,
        #[trigger] spec_new_entries(rect, resolved, e)[j],
    ) by {
        assert(pred(spec_new_entries(rect, resolved, e)[j]));
    }
}

/// One unfolding of `spec_explore`: what a single pop contributes.
#[verifier::rlimit(100)]
pub proof fn lemma_explore_step(
    p: PortalsV,
    blocked: spec_fn(GlobalView) -> bool,
    rect: EgoRect,
    observer: GlobalView,
    resolved: Map<(int, int), GlobalView>,
    queue: Seq<Entry>,
)
    requires
        explore_wf(rect, resolved, queue),
        queue.len() > 0,
    ensures
        ({
            let i = pop_idx(queue);
            let e = queue[i];
            let rest = queue.remove(i);
            let gsrc = if resolved.dom().contains(e.src()) {
                resolved[e.src()]
            } else {
                observer
            };
            let gdst = p.spec_step_offset(gsrc, e.dst_x - e.src_x, e.dst_y - e.src_y).1;
            let r2 = resolved.insert(e.dst(), gdst);
            spec_explore(p, blocked, rect, observer, resolved, queue) == if resolved.dom().contains(
                e.dst(),
            ) {
                spec_explore(p, blocked, rect, observer, resolved, rest)
            } else if blocked(gdst) {
                spec_explore(p, blocked, rect, observer, r2, rest)
            } else {
                spec_explore(
                    p,
                    blocked,
                    rect,
                    observer,
                    r2,
                    rest + spec_new_entries(rect, r2, e),
                )
            }
        }),
{
    let i = pop_idx(queue);
    lemma_pop_idx_in_range(queue);
    lemma_remove_keeps_in_rect(rect, queue, i);
    let e = queue[i];
    let rest = queue.remove(i);
    let gsrc = if resolved.dom().contains(e.src()) {
        resolved[e.src()]
    } else {
        observer
    };
    let gdst = p.spec_step_offset(gsrc, e.dst_x - e.src_x, e.dst_y - e.src_y).1;
    let r2 = resolved.insert(e.dst(), gdst);
    if !resolved.dom().contains(e.dst()) {
        assert(r2.dom() =~= resolved.dom().insert(e.dst()));
        assert(rect.contains_coords(e.dst().0, e.dst().1));
        lemma_new_entries_in_rect(rect, r2, e);
        lemma_add_keeps_in_rect(rect, rest, spec_new_entries(rect, r2, e));
        assert(explore_wf(rect, r2, rest));
        assert(explore_wf(rect, r2, rest + spec_new_entries(rect, r2, e)));
    } else {
        assert(explore_wf(rect, resolved, rest));
    }
    if resolved.dom().contains(e.dst()) {
        assert(spec_explore(p, blocked, rect, observer, resolved, queue) == spec_explore(
            p,
            blocked,
            rect,
            observer,
            resolved,
            rest,
        ));
    } else if blocked(gdst) {
        assert(spec_explore(p, blocked, rect, observer, resolved, queue) == spec_explore(
            p,
            blocked,
            rect,
            observer,
            r2,
            rest,
        ));
    } else {
        assert(spec_explore(p, blocked, rect, observer, resolved, queue) == spec_explore(
            p,
            blocked,
            rect,
            observer,
            r2,
            rest + spec_new_entries(rect, r2, e),
        ));
    }
}

/// Sequence concatenation reassociates.
pub proof fn lemma_seq_assoc(a: Seq<Entry>, b: Seq<Entry>, c: Seq<Entry>)
    ensures
        (a + b) + c == a + (b + c),
{
    assert((a + b) + c =~= a + (b + c));
}

/// Two cells adjacent in ego space, diagonals included.
pub open spec fn adjacent(q: (int, int), c: (int, int)) -> bool {
    -1 <= c.0 - q.0 <= 1 && -1 <= c.1 - q.1 <= 1 && c != q
}

/// `c` is the observer's own cell, or is reached from it within `n`
/// steps of adjacency whose intermediate cells all resolved and are not
/// blocked.
pub open spec fn reach(
    resolved: Map<(int, int), GlobalView>,
    blocked: spec_fn(GlobalView) -> bool,
    obs: (int, int),
    c: (int, int),
    n: nat,
) -> bool
    decreases n,
{
    c == obs || (n > 0 && exists|q: (int, int)|
        adjacent(q, c) && #[trigger] resolved.dom().contains(q) && !blocked(resolved[q]) && reach(
            resolved,
            blocked,
            obs,
            q,
            (n - 1) as nat,
        ))
}

/// Every resolved cell is reachable from the observer's cell.
pub open spec fn all_reachable(
    resolved: Map<(int, int), GlobalView>,
    blocked: spec_fn(GlobalView) -> bool,
    obs: (int, int),
) -> bool {
    forall|c: (int, int)| #[trigger]
        resolved.dom().contains(c) ==> exists|n: nat| reach(resolved, blocked, obs, c, n)
}

/// Reachability survives growing the resolved map.
proof fn lemma_reach_wider(
    r1: Map<(int, int), GlobalView>,
    r2: Map<(int, int), GlobalView>,
    blocked: spec_fn(GlobalView) -> bool,
    obs: (int, int),
    c: (int, int),
    n: nat,
)
    requires
        reach(r1, blocked, obs, c, n),
        forall|k: (int, int)| #[trigger]
            r1.dom().contains(k) ==> r2.dom().contains(k) && r2[k] == r1[k],
    ensures
        reach(r2, blocked, obs, c, n),
    decreases n,
{
    if c != obs {
        let q = choose|q: (int, int)|
            adjacent(q, c) && #[trigger] r1.dom().contains(q) && !blocked(r1[q]) && reach(
                r1,
                blocked,
                obs,
                q,
                (n - 1) as nat,
            );
        lemma_reach_wider(r1, r2, blocked, obs, q, (n - 1) as nat);
        assert(adjacent(q, c) && r2.dom().contains(q) && !blocked(r2[q]) && reach(
            r2,
            blocked,
            obs,
            q,
            (n - 1) as nat,
        ));
    }
}

/// Every pending edge either is the seed at the observer's cell or steps
/// one cell from a resolved, unblocked source.
pub open spec fn queue_reach_ok(
    resolved: Map<(int, int), GlobalView>,
    blocked: spec_fn(GlobalView) -> bool,
    obs: (int, int),
    q: Seq<Entry>,
) -> bool {
    forall|i: int|
        0 <= i < q.len() ==> (((#[trigger] q[i]).dst() == obs && q[i].src() == obs) || (
        resolved.dom().contains(q[i].src()) && !blocked(resolved[q[i].src()]) && adjacent(
            q[i].src(),
            q[i].dst(),
        )))
}

/// Fresh neighbour candidates step one cell out of the resolved cell
/// that produced them.
proof fn lemma_new_entries_adjacent(
    rect: EgoRect,
    resolved: Map<(int, int), GlobalView>,
    e: Entry,
)
    requires
        rect.wf(),
    ensures
        forall|j: int|
            0 <= j < spec_new_entries(rect, resolved, e).len() ==> ((#[trigger] spec_new_entries(
                rect,
                resolved,
                e,
            )[j]).src() == e.dst() && adjacent(
                spec_new_entries(rect, resolved, e)[j].src(),
                spec_new_entries(rect, resolved, e)[j].dst(),
            )),
{
    let pred = |ne: Entry| ne.src() == e.dst() && adjacent(ne.src(), ne.dst());
    let s1 = spec_entry_at(rect, resolved, e, 0, -1, 1);
    let s2 = spec_entry_at(rect, resolved, e, 0, 1, 1);
    let s3 = spec_entry_at(rect, resolved, e, -1, 0, 1);
    let s4 = spec_entry_at(rect, resolved, e, 1, 0, 1);
    let s5 = spec_entry_at(rect, resolved, e, -1, -1, 4);
    let s6 = spec_entry_at(rect, resolved, e, -1, 1, 4);
    let s7 = spec_entry_at(rect, resolved, e, 1, -1, 4);
    let s8 = spec_entry_at(rect, resolved, e, 1, 1, 4);
    assert(forall|j: int| 0 <= j < s1.len() ==> pred(#[trigger] s1[j]));
    assert(forall|j: int| 0 <= j < s2.len() ==> pred(#[trigger] s2[j]));
    assert(forall|j: int| 0 <= j < s3.len() ==> pred(#[trigger] s3[j]));
    assert(forall|j: int| 0 <= j < s4.len() ==> pred(#[trigger] s4[j]));
    assert(forall|j: int| 0 <= j < s5.len() ==> pred(#[trigger] s5[j]));
    assert(forall|j: int| 0 <= j < s6.len() ==> pred(#[trigger] s6[j]));
    assert(forall|j: int| 0 <= j < s7.len() ==> pred(#[trigger] s7[j]));
    assert(forall|j: int| 0 <= j < s8.len() ==> pred(#[trigger] s8[j]));
    lemma_seq_add_pred(pred, s1, s2);
    lemma_seq_add_pred(pred, s1 + s2, s3);
    lemma_seq_add_pred(pred, s1 + s2 + s3, s4);
    lemma_seq_add_pred(pred, s1 + s2 + s3 + s4, s5);
    lemma_seq_add_pred(pred, s1 + s2 + s3 + s4 + s5, s6);
    lemma_seq_add_pred(pred, s1 + s2 + s3 + s4 + s5 + s6, s7);
    lemma_seq_add_pred(pred, s1 + s2 + s3 + s4 + s5 + s6 + s7, s8);
    assert forall|j: int| 0 <= j < spec_new_entries(rect, resolved, e).len() implies ((
    #[trigger] spec_new_entries(rect, resolved, e)[j]).src() == e.dst() && adjacent(
        spec_new_entries(rect, resolved, e)[j].src(),
        spec_new_entries(rect, resolved, e)[j].dst(),
    )) by {
        assert(pred(spec_new_entries(rect, resolved, e)[j]));
    }
}

/// The flood fill only resolves cells reachable from the observer's cell
/// through resolved, unblocked cells.
#[verifier::rlimit(100)]
pub(crate) proof fn lemma_explore_reachable(
    p: PortalsV,
    blocked: spec_fn(GlobalView) -> bool,
    rect: EgoRect,
    observer: GlobalView,
    resolved: Map<(int, int), GlobalView>,
    queue: Seq<Entry>,
    obs: (int, int),
)
    requires
        explore_wf(rect, resolved, queue),
        all_reachable(resolved, blocked, obs),
        queue_reach_ok(resolved, blocked, obs, queue),
    ensures
        all_reachable(spec_explore(p, blocked, rect, observer, resolved, queue), blocked, obs),
    decreases rect.area() - resolved.dom().len(), queue.len(),
{
    lemma_cells_of_rect_len(rect);
    lemma_len_subset(resolved.dom(), cells_of_rect(rect));
    if queue.len() > 0 {
        let i = pop_idx(queue);
        lemma_pop_idx_in_range(queue);
        lemma_explore_step(p, blocked, rect, observer, resolved, queue);
        lemma_remove_keeps_in_rect(rect, queue, i);
        let e = queue[i];
        let rest = queue.remove(i);
        assert forall|j: int| 0 <= j < rest.len() implies (((#[trigger] rest[j]).dst() == obs
            && rest[j].src() == obs) || (resolved.dom().contains(rest[j].src()) && !blocked(
            resolved[rest[j].src()],
        ) && adjacent(rest[j].src(), rest[j].dst()))) by {
            if j < i {
                assert(rest[j] == queue[j]);
            } else {
                assert(rest[j] == queue[j + 1]);
            }
        }
        if resolved.dom().contains(e.dst()) {
            lemma_explore_reachable(p, blocked, rect, observer, resolved, rest, obs);
        } else {
            let gsrc = if resolved.dom().contains(e.src()) {
                resolved[e.src()]
            } else {
                observer
            };
            let gdst = p.spec_step_offset(gsrc, e.dst_x - e.src_x, e.dst_y - e.src_y).1;
            let r2 = resolved.insert(e.dst(), gdst);
            assert(r2.dom() =~= resolved.dom().insert(e.dst()));
            assert(forall|k: (int, int)| #[trigger]
                resolved.dom().contains(k) ==> r2.dom().contains(k) && r2[k] == resolved[k]);
            assert forall|c: (int, int)| #[trigger] r2.dom().contains(c) implies exists|n: nat|
                reach(r2, blocked, obs, c, n) by {
                if c != e.dst() {
                    assert(resolved.dom().contains(c));
                    let n = choose|n: nat| reach(resolved, blocked, obs, c, n);
                    lemma_reach_wider(resolved, r2, blocked, obs, c, n);
                } else if e.dst() == obs {
                    assert(reach(r2, blocked, obs, c, 0));
                } else {
                    assert(resolved.dom().contains(e.src()) && !blocked(resolved[e.src()])
                        && adjacent(e.src(), e.dst()));
                    let n = choose|n: nat| reach(resolved, blocked, obs, e.src(), n);
                    lemma_reach_wider(resolved, r2, blocked, obs, e.src(), n);
                    assert(adjacent(e.src(), c) && r2.dom().contains(e.src()) && !blocked(
                        r2[e.src()],
                    ) && reach(r2, blocked, obs, e.src(), n));
                    assert(reach(r2, blocked, obs, c, (n + 1) as nat));
                }
            }
            assert forall|j: int| 0 <= j < rest.len() implies (((#[trigger] rest[j]).dst() == obs
                && rest[j].src() == obs) || (r2.dom().contains(rest[j].src()) && !blocked(
                r2[rest[j].src()],
            ) && adjacent(rest[j].src(), rest[j].dst()))) by {
                if resolved.dom().contains(rest[j].src()) {
                    assert(r2[rest[j].src()] == resolved[rest[j].src()]);
                }
            }
            lemma_len_subset(r2.dom(), cells_of_rect(rect));
            if blocked(gdst) {
                lemma_explore_reachable(p, blocked, rect, observer, r2, rest, obs);
            } else {
                let ne = spec_new_entries(rect, r2, e);
                lemma_new_entries_in_rect(rect, r2, e);
                lemma_add_keeps_in_rect(rect, rest, ne);
                lemma_new_entries_adjacent(rect, r2, e);
                assert forall|j: int| 0 <= j < (rest + ne).len() implies (((#[trigger] (rest
                    + ne)[j]).dst() == obs && (rest + ne)[j].src() == obs) || (r2.dom().contains(
                    (rest + ne)[j].src(),
                ) && !blocked(r2[(rest + ne)[j].src()]) && adjacent(
                    (rest + ne)[j].src(),
                    (rest + ne)[j].dst(),
                ))) by {
                    if j < rest.len() {
                        assert((rest + ne)[j] == rest[j]);
                    } else {
                        assert((rest + ne)[j] == ne[j - rest.len()]);
                        assert(ne[j - rest.len()].src() == e.dst());
                    }
                }
                lemma_explore_reachable(p, blocked, rect, observer, r2, rest + ne, obs);
            }
        }
    }
}

} // verus!
