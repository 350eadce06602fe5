use vstd::prelude::*;

use crate::assoc::assoc_map;
use crate::assoc::distinct_keys;
use crate::assoc::lemma_assoc_at;
use crate::assoc::lemma_assoc_contains;
use crate::assoc::lemma_contains_push;
use crate::assoc::lemma_rebuild_distinct;
use crate::assoc::lemma_rebuild_map;
use crate::assoc::lemma_rebuild_push;
use crate::assoc::lemma_rebuild_skip;
use crate::assoc::rebuild_inv;
use crate::assoc::lemma_assoc_update;
use crate::cardinal::Cardinal;
use crate::egocentric::Egocentric;
use crate::geom::safe_bound;
use crate::geom::EgoVec;
use crate::geom::GlobalView;

verus! {

/// A one-way teleport seam of `size` consecutive cells: stepping onto the
/// sensing row in front of `src` (facing `src.c`) teleports to the run of
/// cells anchored at `dst` (facing `dst.c`).  Every insertion also registers
/// the mechanically derived reverse seam, so seams behave bidirectionally.
#[derive(Clone, Copy, Debug, PartialEq, Eq, Structural)]
pub struct AreaPortal {
    pub src: GlobalView,
    pub dst: GlobalView,
    pub size: isize,
}

/// The offset vector of a direction moves along one axis only, by exactly
/// the requested amount.
pub proof fn lemma_offset_by_bounds(c: Cardinal, n: int)
    ensures
        c.spec_offset_by(n).0 == 0 || c.spec_offset_by(n).0 == n || c.spec_offset_by(n).0 == -n,
        c.spec_offset_by(n).1 == 0 || c.spec_offset_by(n).1 == n || c.spec_offset_by(n).1 == -n,
{
}

impl AreaPortal {
    /// Both anchors lie within `[-b, b]` on each axis and the seam length is
    /// at most `b`.
    pub open spec fn anchors_bounded(self, b: int) -> bool {
        &&& self.src.x.bounded(b)
        &&& self.dst.x.bounded(b)
        &&& 0 <= self.size <= b
    }

    /// Portals handed to `add_area_portal` keep a margin wide enough that
    /// the seam, its mechanical reverse, and every step off either stays
    /// within `safe_bound()`.
    pub open spec fn wf(self) -> bool {
        self.anchors_bounded(safe_bound() / 8)
    }

    /// The `i`-th sensing cell of the source run: the cell one step forward
    /// of the seam cell `i` places along `src.c.right()`, facing `src.c`.
    /// Stepping forward onto it is what triggers the trap.
    pub open spec fn trap_cell(self, i: int) -> GlobalView {
        let side = self.src.c.spec_right().spec_offset_by(i);
        let fwd = self.src.c.spec_offset_by(1);
        GlobalView {
            r: self.src.r,
            x: self.src.x.shifted((side.0 + fwd.0, side.1 + fwd.1)),
            c: self.src.c,
        }
    }

    /// The `i`-th arrival cell of the destination run, facing `dst.c`.
    pub open spec fn arrival_cell(self, i: int) -> GlobalView {
        let side = self.dst.c.spec_right().spec_offset_by(i);
        GlobalView { r: self.dst.r, x: self.dst.x.shifted(side), c: self.dst.c }
    }

    /// The mechanically derived reverse seam: each anchor reflected across
    /// the far edge of its run, facing turned around.
    pub open spec fn spec_reverse(self) -> AreaPortal {
        AreaPortal {
            src: GlobalView {
                r: self.dst.r,
                x: self.dst.x.shifted(self.dst.c.spec_right().spec_offset_by(self.size - 1)),
                c: self.dst.c.spec_reverse(),
            },
            dst: GlobalView {
                r: self.src.r,
                x: self.src.x.shifted(self.src.c.spec_right().spec_offset_by(self.size - 1)),
                c: self.src.c.spec_reverse(),
            },
            size: self.size,
        }
    }

    /// Every owner-index key this portal's insertion writes.
    pub open spec fn seam_keys(self) -> Set<GlobalView> {
        Set::new(
            |c: GlobalView|
                exists|i: int|
                    0 <= i < self.size && (c == self.trap_cell(i) || c == self.arrival_cell(i)),
        )
    }

    #[verifier::when_used_as_spec(spec_reverse)]
    pub fn reverse(self) -> (r: AreaPortal)
        requires
            self.anchors_bounded(safe_bound() / 4),
        ensures
            r == self.spec_reverse(),
    {
        proof {
            lemma_offset_by_bounds(self.dst.c.spec_right(), self.size - 1);
            lemma_offset_by_bounds(self.src.c.spec_right(), self.size - 1);
        }
        let src_side = self.dst.c.right().offset_by(self.size - 1);
        let dst_side = self.src.c.right().offset_by(self.size - 1);
        AreaPortal {
            src: GlobalView {
                r: self.dst.r,
                x: self.dst.x.plus(src_side),
                c: self.dst.c.reverse(),
            },
            dst: GlobalView {
                r: self.src.r,
                x: self.src.x.plus(dst_side),
                c: self.src.c.reverse(),
            },
            size: self.size,
        }
    }

    /// The reverse of a well-formed portal stays within the working margin.
    pub proof fn lemma_reverse_bounded(self)
        requires
            self.wf(),
        ensures
            self.spec_reverse().anchors_bounded(safe_bound() / 4),
    {
        lemma_offset_by_bounds(self.dst.c.spec_right(), self.size - 1);
        lemma_offset_by_bounds(self.src.c.spec_right(), self.size - 1);
    }

    fn trap_cell_at(self, i: isize) -> (r: GlobalView)
        requires
            self.anchors_bounded(safe_bound() / 4),
            0 <= i < self.size,
        ensures
            r == self.trap_cell(i as int),
    {
        proof {
            lemma_offset_by_bounds(self.src.c.spec_right(), i as int);
            lemma_offset_by_bounds(self.src.c, 1);
        }
        let side = self.src.c.right().offset_by(i);
        let fwd = self.src.c.offset();
        GlobalView { r: self.src.r, x: self.src.x.plus(side).plus(fwd), c: self.src.c }
    }

    fn arrival_cell_at(self, i: isize) -> (r: GlobalView)
        requires
            self.anchors_bounded(safe_bound() / 4),
            0 <= i < self.size,
        ensures
            r == self.arrival_cell(i as int),
    {
        proof {
            lemma_offset_by_bounds(self.dst.c.spec_right(), i as int);
        }
        let side = self.dst.c.right().offset_by(i);
        GlobalView { r: self.dst.r, x: self.dst.x.plus(side), c: self.dst.c }
    }
}

/// The mathematical content of a portal graph: `owner` records, for every
/// cell of every registered seam (sensing and arrival side alike), the seam
/// it belongs to; `traps` routes each sensing cell to its arrival cell.
pub struct PortalsV {
    pub owner: Map<GlobalView, AreaPortal>,
    pub traps: Map<GlobalView, GlobalView>,
}

impl PortalsV {
    /// The graph with no portals.
    pub open spec fn empty() -> PortalsV {
        PortalsV { owner: Map::empty(), traps: Map::empty() }
    }

    /// Every trap destination lies within `safe_bound()`: stepping onto a
    /// trap lands on coordinates that can still be stepped from.
    pub open spec fn traps_bounded(self) -> bool {
        forall|k: GlobalView|
            #[trigger] self.traps.dom().contains(k) ==> self.traps[k].x.bounded(safe_bound())
    }

    /// Every registered owner is a portal whose seam arithmetic stays in
    /// bounds (portals recorded by `add_area_portal` and their reverses).
    pub open spec fn owners_bounded(self) -> bool {
        forall|k: GlobalView|
            #[trigger] self.owner.dom().contains(k) ==> self.owner[k].anchors_bounded(
                safe_bound() / 4,
            )
    }

    /// Whether some cell is registered as belonging to `ap`.
    pub open spec fn has_portal(self, ap: AreaPortal) -> bool {
        exists|c: GlobalView| #[trigger] self.owner.dom().contains(c) && self.owner[c] == ap
    }

    /// Remove every owner and trap entry of the cells belonging to `ap` or
    /// to `ap`'s reverse.
    pub open spec fn remove_portal(self, ap: AreaPortal) -> PortalsV {
        let s = self.cells_of(ap);
        PortalsV {
            owner: Map::new(
                |k: GlobalView| self.owner.dom().contains(k) && !s.contains(k),
                |k: GlobalView| self.owner[k],
            ),
            traps: Map::new(
                |k: GlobalView|
                    self.traps.dom().contains(k) && !s.contains(k) && !s.contains(self.traps[k]),
                |k: GlobalView| self.traps[k],
            ),
        }
    }

    /// The cells registered to `ap` or to `ap`'s reverse.
    pub open spec fn cells_of(self, ap: AreaPortal) -> Set<GlobalView> {
        Set::new(
            |c: GlobalView|
                self.owner.dom().contains(c) && (self.owner[c] == ap || self.owner[c]
                    == ap.spec_reverse()),
        )
    }

    /// Register the single trap `s -> d`, keeping the routing one-to-one:
    /// any other sensing cell that routed to `d` is unrouted first.
    pub open spec fn insert_trap(self, s: GlobalView, d: GlobalView) -> PortalsV {
        let kept = Map::new(
            |k: GlobalView| self.traps.dom().contains(k) && self.traps[k] != d,
            |k: GlobalView| self.traps[k],
        );
        PortalsV { owner: self.owner, traps: kept.insert(s, d) }
    }

    /// Register cell `i` of `ap`'s seam: route its sensing cell to its
    /// arrival cell and record both as belonging to `ap`.
    pub open spec fn add_oneway_step(self, ap: AreaPortal, i: int) -> PortalsV {
        let s = ap.trap_cell(i);
        let d = ap.arrival_cell(i);
        let v = self.insert_trap(s, d);
        PortalsV { owner: v.owner.insert(s, ap).insert(d, ap), traps: v.traps }
    }

    /// Register cells `i..ap.size` of `ap`'s seam, in order.
    pub open spec fn add_oneway_from(self, ap: AreaPortal, i: int) -> PortalsV
        decreases ap.size - i,
    {
        if i >= ap.size {
            self
        } else {
            self.add_oneway_step(ap, i).add_oneway_from(ap, i + 1)
        }
    }

    /// Evict whatever portal owns the sensing cell, then whatever portal
    /// owns the arrival cell, of seam index `i` of `ap`.
    pub open spec fn evict_step(self, ap: AreaPortal, i: int) -> PortalsV {
        let s = ap.trap_cell(i);
        let d = ap.arrival_cell(i);
        let v = if self.owner.dom().contains(s) {
            self.remove_portal(self.owner[s])
        } else {
            self
        };
        if v.owner.dom().contains(d) {
            v.remove_portal(v.owner[d])
        } else {
            v
        }
    }

    /// Evict the owners of every cell of `ap`'s seam from index `i` on.
    pub open spec fn evict_from(self, ap: AreaPortal, i: int) -> PortalsV
        decreases ap.size - i,
    {
        if i >= ap.size {
            self
        } else {
            self.evict_step(ap, i).evict_from(ap, i + 1)
        }
    }

    /// The full effect of `add_area_portal`: a no-op when `ap` is already
    /// registered, otherwise evict every overlapping portal and register
    /// `ap` together with its mechanical reverse.
    pub open spec fn spec_add(self, ap: AreaPortal) -> PortalsV {
        if self.has_portal(ap) {
            self
        } else {
            self.evict_from(ap, 0).evict_from(ap.spec_reverse(), 0).add_oneway_from(
                ap,
                0,
            ).add_oneway_from(ap.spec_reverse(), 0)
        }
    }
}

/// The portal graph: a bidirectional index of area portals.  `owner` maps
/// each registered cell to the seam it belongs to; `traps` maps each sensing
/// cell to the arrival cell it teleports to.
pub struct Portals {
    owner: Vec<(GlobalView, AreaPortal)>,
    traps: Vec<(GlobalView, GlobalView)>,
}

impl View for Portals {
    type V = PortalsV;

    closed spec fn view(&self) -> PortalsV {
        PortalsV { owner: assoc_map(self.owner@), traps: assoc_map(self.traps@) }
    }
}

impl Portals {
    spec fn rep_wf(&self) -> bool {
        distinct_keys(self.owner@) && distinct_keys(self.traps@)
    }

    /// The graph's invariant: registered owners and trap destinations stay
    /// within the coordinate margins that keep stepping overflow-free.
    pub open spec fn wf(&self) -> bool {
        &&& self.inv_rep()
        &&& self@.traps_bounded()
        &&& self@.owners_bounded()
    }

    #[verifier::opaque]
    pub closed spec fn inv_rep(&self) -> bool {
        self.rep_wf()
    }

    /// An empty portal graph.
    pub fn new() -> (r: Portals)
        ensures
            r.wf(),
            r@ == PortalsV::empty(),
    {
        let r = Portals { owner: Vec::new(), traps: Vec::new() };
        proof {
            reveal(Portals::inv_rep);
            assert(r@.owner =~= Map::<GlobalView, AreaPortal>::empty());
            assert(r@.traps =~= Map::<GlobalView, GlobalView>::empty());
        }
        r
    }

    fn owner_get(&self, k: GlobalView) -> (r: Option<AreaPortal>)
        requires
            self.wf(),
        ensures
            r == if self@.owner.dom().contains(k) {
                Some(self@.owner[k])
            } else {
                None::<AreaPortal>
            },
    {
        proof {
            reveal(Portals::inv_rep);
        }
        let n = self.owner.len();
        let mut i: usize = 0;
        while i < n
            invariant
                self.wf(),
                n == self.owner@.len(),
                i <= n,
                forall|j: int| 0 <= j < i ==> (#[trigger] self.owner@[j]).0 != k,
            decreases n - i,
        {
            proof {
                reveal(Portals::inv_rep);
            }
            if self.owner[i].0 == k {
                proof {
                    lemma_assoc_at(self.owner@, i as int);
                }
                return Some(self.owner[i].1);
            }
            i = i + 1;
        }
        proof {
            lemma_assoc_contains(self.owner@, k);
        }
        None
    }

    fn trap_get(&self, k: GlobalView) -> (r: Option<GlobalView>)
        requires
            self.wf(),
        ensures
            r == if self@.traps.dom().contains(k) {
                Some(self@.traps[k])
            } else {
                None::<GlobalView>
            },
    {
        proof {
            reveal(Portals::inv_rep);
        }
        let n = self.traps.len();
        let mut i: usize = 0;
        while i < n
            invariant
                self.wf(),
                n == self.traps@.len(),
                i <= n,
                forall|j: int| 0 <= j < i ==> (#[trigger] self.traps@[j]).0 != k,
            decreases n - i,
        {
            proof {
                reveal(Portals::inv_rep);
            }
            if self.traps[i].0 == k {
                proof {
                    lemma_assoc_at(self.traps@, i as int);
                }
                return Some(self.traps[i].1);
            }
            i = i + 1;
        }
        proof {
            lemma_assoc_contains(self.traps@, k);
        }
        None
    }

    fn owner_has_value(&self, ap: AreaPortal) -> (r: bool)
        requires
            self.wf(),
        ensures
            r == self@.has_portal(ap),
    {
        proof {
            reveal(Portals::inv_rep);
        }
        let n = self.owner.len();
        let mut i: usize = 0;
        while i < n
            invariant
                self.wf(),
                n == self.owner@.len(),
                i <= n,
                forall|j: int| 0 <= j < i ==> (#[trigger] self.owner@[j]).1 != ap,
            decreases n - i,
        {
            proof {
                reveal(Portals::inv_rep);
            }
            if self.owner[i].1 == ap {
                proof {
                    lemma_assoc_at(self.owner@, i as int);
                    assert(self@.owner.dom().contains(self.owner@[i as int].0) && self@.owner[
                        self.owner@[i as int].0] == ap);
                }
                return true;
            }
            i = i + 1;
        }
        proof {
            reveal(Portals::inv_rep);
            if self@.has_portal(ap) {
                let c = choose|c: GlobalView|
                    #[trigger] self@.owner.dom().contains(c) && self@.owner[c] == ap;
                lemma_assoc_contains(self.owner@, c);
                let j = choose|j: int| 0 <= j < self.owner@.len() && (#[trigger] self.owner@[j]).0
                    == c;
                lemma_assoc_at(self.owner@, j);
            }
        }
        false
    }

    fn owner_insert(&mut self, k: GlobalView, ap: AreaPortal)
        requires
            old(self).wf(),
            ap.anchors_bounded(safe_bound() / 4),
        ensures
            final(self).wf(),
            final(self)@.owner == old(self)@.owner.insert(k, ap),
            final(self)@.traps == old(self)@.traps,
    {
        proof {
            reveal(Portals::inv_rep);
        }
        let n = self.owner.len();
        let mut i: usize = 0;
        while i < n
            invariant
                self.wf(),
                self == old(self),
                ap.anchors_bounded(safe_bound() / 4),
                n == self.owner@.len(),
                i <= n,
                forall|j: int| 0 <= j < i ==> (#[trigger] self.owner@[j]).0 != k,
            decreases n - i,
        {
            proof {
                reveal(Portals::inv_rep);
            }
            if self.owner[i].0 == k {
                proof {
                    lemma_assoc_update(self.owner@, i as int, ap);
                }
                self.owner.set(i, (k, ap));
                proof {
                    reveal(Portals::inv_rep);
                    lemma_owners_bounded_insert(old(self)@, k, ap);
                }
                return ;
            }
            i = i + 1;
        }
        self.owner.push((k, ap));
        proof {
            reveal(Portals::inv_rep);
            assert(self.owner@.drop_last() =~= old(self).owner@);
            lemma_assoc_contains(old(self).owner@, k);
            lemma_owners_bounded_insert(old(self)@, k, ap);
        }
    }
}

fn vec_contains_view(v: &Vec<GlobalView>, k: GlobalView) -> (r: bool)
    ensures
        r == v@.contains(k),
{
    let n = v.len();
    let mut i: usize = 0;
    while i < n
        invariant
            n == v@.len(),
            i <= n,
            forall|j: int| 0 <= j < i ==> v@[j] != k,
        decreases n - i,
    {
        if v[i] == k {
            assert(v@.contains(k)) by {
                assert(v@[i as int] == k);
            }
            return true;
        }
        i = i + 1;
    }
    false
}

impl Portals {
    /// The cells registered to `a` or to `b`, as a list.
    fn owner_cells_with(&self, a: AreaPortal, b: AreaPortal) -> (r: Vec<GlobalView>)
        requires
            self.wf(),
        ensures
            forall|c: GlobalView|
                #[trigger] r@.contains(c) <==> (self@.owner.dom().contains(c) && (self@.owner[c]
                    == a || self@.owner[c] == b)),
    {
        proof {
            reveal(Portals::inv_rep);
        }
        let n = self.owner.len();
        let mut out: Vec<GlobalView> = Vec::new();
        let mut i: usize = 0;
        while i < n
            invariant
                self.wf(),
                n == self.owner@.len(),
                i <= n,
                forall|c: GlobalView|
                    #[trigger] out@.contains(c) <==> exists|j: int|
                        0 <= j < i && (#[trigger] self.owner@[j]).0 == c && (self.owner@[j].1 == a
                            || self.owner@[j].1 == b),
            decreases n - i,
        {
            let e = self.owner[i];
            if e.1 == a || e.1 == b {
                let ghost prev = out@;
                out.push(e.0);
                proof {
                    assert forall|c: GlobalView| #[trigger] out@.contains(c) implies exists|j: int|
                        0 <= j < i + 1 && (#[trigger] self.owner@[j]).0 == c && (self.owner@[j].1
                            == a || self.owner@[j].1 == b) by {
                        lemma_contains_push(prev, e.0, c);
                        if c == e.0 {
                            assert(self.owner@[i as int].0 == c);
                        }
                    }
                    assert forall|c: GlobalView|
                        exists|j: int|
                            0 <= j < i + 1 && (#[trigger] self.owner@[j]).0 == c && (
                            self.owner@[j].1 == a || self.owner@[j].1 == b) implies #[trigger]
                    out@.contains(c) by {
                        lemma_contains_push(prev, e.0, c);
                    }
                }
            } else {
                proof {
                    assert forall|c: GlobalView|
                        exists|j: int|
                            0 <= j < i + 1 && (#[trigger] self.owner@[j]).0 == c && (
                            self.owner@[j].1 == a || self.owner@[j].1 == b) implies #[trigger]
                    out@.contains(c) by {
                        let j = choose|j: int|
                            0 <= j < i + 1 && (#[trigger] self.owner@[j]).0 == c && (
                            self.owner@[j].1 == a || self.owner@[j].1 == b);
                        assert(j < i);
                    }
                }
            }
            i = i + 1;
        }
        proof {
            reveal(Portals::inv_rep);
            assert forall|c: GlobalView| #[trigger] out@.contains(c) implies (
            self@.owner.dom().contains(c) && (self@.owner[c] == a || self@.owner[c] == b)) by {
                let j = choose|j: int|
                    0 <= j < n && (#[trigger] self.owner@[j]).0 == c && (self.owner@[j].1 == a
                        || self.owner@[j].1 == b);
                lemma_assoc_at(self.owner@, j);
            }
            assert forall|c: GlobalView|
                self@.owner.dom().contains(c) && (self@.owner[c] == a || self@.owner[c]
                    == b) implies #[trigger] out@.contains(c) by {
                lemma_assoc_contains(self.owner@, c);
                let j = choose|j: int| 0 <= j < self.owner@.len() && (#[trigger] self.owner@[j]).0
                    == c;
                lemma_assoc_at(self.owner@, j);
            }
        }
        out
    }

    /// Drop every owner entry whose portal is `a` or `b`.
    fn owner_remove_values(&mut self, a: AreaPortal, b: AreaPortal)
        requires
            old(self).wf(),
        ensures
            final(self).wf(),
            final(self)@.traps == old(self)@.traps,
            forall|k: GlobalView|
                #[trigger] final(self)@.owner.dom().contains(k) <==> (old(
                    self,
                )@.owner.dom().contains(k) && old(self)@.owner[k] != a && old(self)@.owner[k]
                    != b),
            forall|k: GlobalView|
                #[trigger] final(self)@.owner.dom().contains(k) ==> final(self)@.owner[k] == old(
                    self,
                )@.owner[k],
    {
        proof {
            reveal(Portals::inv_rep);
        }
        let ghost keep = |e: (GlobalView, AreaPortal)| e.1 != a && e.1 != b;
        let n = self.owner.len();
        let mut out: Vec<(GlobalView, AreaPortal)> = Vec::new();
        let mut i: usize = 0;
        while i < n
            invariant
                self.wf(),
                self == old(self),
                forall|e: (GlobalView, AreaPortal)| #[trigger] keep(e) <==> (e.1 != a && e.1 != b),
                n == self.owner@.len(),
                i <= n,
                distinct_keys(out@),
                rebuild_inv(out@, self.owner@, i as int, keep),
            decreases n - i,
        {
            proof {
                reveal(Portals::inv_rep);
            }
            let e = self.owner[i];
            if !(e.1 == a || e.1 == b) {
                proof {
                    lemma_rebuild_distinct(out@, self.owner@, i as int, keep);
                    lemma_rebuild_push(out@, self.owner@, i as int, keep);
                }
                out.push(e);
            } else {
                proof {
                    lemma_rebuild_skip(out@, self.owner@, i as int, keep);
                }
            }
            i = i + 1;
        }
        self.owner = out;
        proof {
            reveal(Portals::inv_rep);
            lemma_rebuild_map(out@, old(self).owner@, keep);
            assert forall|k: GlobalView| #[trigger] self@.owner.dom().contains(k) implies self@
                .owner[k].anchors_bounded(safe_bound() / 4) by {
                assert(old(self)@.owner.dom().contains(k));
            }
        }
    }

    /// Drop every trap entry whose sensing or arrival cell is in `cells`.
    fn traps_remove_touching(&mut self, cells: &Vec<GlobalView>)
        requires
            old(self).wf(),
        ensures
            final(self).wf(),
            final(self)@.owner == old(self)@.owner,
            forall|k: GlobalView|
                #[trigger] final(self)@.traps.dom().contains(k) <==> (old(
                    self,
                )@.traps.dom().contains(k) && !cells@.contains(k) && !cells@.contains(
                    old(self)@.traps[k],
                )),
            forall|k: GlobalView|
                #[trigger] final(self)@.traps.dom().contains(k) ==> final(self)@.traps[k] == old(
                    self,
                )@.traps[k],
    {
        proof {
            reveal(Portals::inv_rep);
        }
        let ghost keep = |e: (GlobalView, GlobalView)|
            !cells@.contains(e.0) && !cells@.contains(e.1);
        let n = self.traps.len();
        let mut out: Vec<(GlobalView, GlobalView)> = Vec::new();
        let mut i: usize = 0;
        while i < n
            invariant
                self.wf(),
                self == old(self),
                forall|e: (GlobalView, GlobalView)|
                    #[trigger] keep(e) <==> (!cells@.contains(e.0) && !cells@.contains(e.1)),
                n == self.traps@.len(),
                i <= n,
                distinct_keys(out@),
                rebuild_inv(out@, self.traps@, i as int, keep),
            decreases n - i,
        {
            proof {
                reveal(Portals::inv_rep);
            }
            let e = self.traps[i];
            if !vec_contains_view(cells, e.0) && !vec_contains_view(cells, e.1) {
                proof {
                    lemma_rebuild_distinct(out@, self.traps@, i as int, keep);
                    lemma_rebuild_push(out@, self.traps@, i as int, keep);
                }
                out.push(e);
            } else {
                proof {
                    lemma_rebuild_skip(out@, self.traps@, i as int, keep);
                }
            }
            i = i + 1;
        }
        self.traps = out;
        proof {
            reveal(Portals::inv_rep);
            lemma_rebuild_map(out@, old(self).traps@, keep);
            assert forall|k: GlobalView| #[trigger] self@.traps.dom().contains(k) implies self@
                .traps[k].x.bounded(safe_bound()) by {
                assert(old(self)@.traps.dom().contains(k));
            }
            assert(self@.owner == old(self)@.owner);
            assert forall|k: GlobalView| #[trigger] self@.owner.dom().contains(k) implies self@
                .owner[k].anchors_bounded(safe_bound() / 4) by {
                assert(old(self)@.owner.dom().contains(k));
            }
        }
    }

    /// Drop every trap entry routing to `d`.
    fn trap_remove_value(&mut self, d: GlobalView)
        requires
            old(self).wf(),
        ensures
            final(self).wf(),
            final(self)@.owner == old(self)@.owner,
            forall|k: GlobalView|
                #[trigger] final(self)@.traps.dom().contains(k) <==> (old(
                    self,
                )@.traps.dom().contains(k) && old(self)@.traps[k] != d),
            forall|k: GlobalView|
                #[trigger] final(self)@.traps.dom().contains(k) ==> final(self)@.traps[k] == old(
                    self,
                )@.traps[k],
    {
        proof {
            reveal(Portals::inv_rep);
        }
        let ghost keep = |e: (GlobalView, GlobalView)| e.1 != d;
        let n = self.traps.len();
        let mut out: Vec<(GlobalView, GlobalView)> = Vec::new();
        let mut i: usize = 0;
        while i < n
            invariant
                self.wf(),
                self == old(self),
                forall|e: (GlobalView, GlobalView)| #[trigger] keep(e) <==> (e.1 != d),
                n == self.traps@.len(),
                i <= n,
                distinct_keys(out@),
                rebuild_inv(out@, self.traps@, i as int, keep),
            decreases n - i,
        {
            proof {
                reveal(Portals::inv_rep);
            }
            let e = self.traps[i];
            if e.1 != d {
                proof {
                    lemma_rebuild_distinct(out@, self.traps@, i as int, keep);
                    lemma_rebuild_push(out@, self.traps@, i as int, keep);
                }
                out.push(e);
            } else {
                proof {
                    lemma_rebuild_skip(out@, self.traps@, i as int, keep);
                }
            }
            i = i + 1;
        }
        self.traps = out;
        proof {
            reveal(Portals::inv_rep);
            lemma_rebuild_map(out@, old(self).traps@, keep);
            assert forall|k: GlobalView| #[trigger] self@.traps.dom().contains(k) implies self@
                .traps[k].x.bounded(safe_bound()) by {
                assert(old(self)@.traps.dom().contains(k));
            }
            assert(self@.owner == old(self)@.owner);
            assert forall|k: GlobalView| #[trigger] self@.owner.dom().contains(k) implies self@
                .owner[k].anchors_bounded(safe_bound() / 4) by {
                assert(old(self)@.owner.dom().contains(k));
            }
        }
    }

    /// Route `s` to `d`, keeping the routing one-to-one.
    fn trap_insert(&mut self, s: GlobalView, d: GlobalView)
        requires
            old(self).wf(),
            d.x.bounded(safe_bound()),
        ensures
            final(self).wf(),
            final(self)@ == old(self)@.insert_trap(s, d),
    {
        self.trap_remove_value(d);
        proof {
            reveal(Portals::inv_rep);
        }
        let ghost mid_vec = self.traps@;
        let n = self.traps.len();
        let mut i: usize = 0;
        while i < n
            invariant
                self.wf(),
                self.traps@ == mid_vec,
                self@.owner == old(self)@.owner,
                d.x.bounded(safe_bound()),
                forall|k: GlobalView|
                    #[trigger] self@.traps.dom().contains(k) <==> (old(
                        self,
                    )@.traps.dom().contains(k) && old(self)@.traps[k] != d),
                forall|k: GlobalView|
                    #[trigger] self@.traps.dom().contains(k) ==> self@.traps[k] == old(
                        self,
                    )@.traps[k],
                n == self.traps@.len(),
                i <= n,
                forall|j: int| 0 <= j < i ==> (#[trigger] self.traps@[j]).0 != s,
            decreases n - i,
        {
            proof {
                reveal(Portals::inv_rep);
            }
            if self.traps[i].0 == s {
                proof {
                    lemma_assoc_update(self.traps@, i as int, d);
                }
                self.traps.set(i, (s, d));
                proof {
                    reveal(Portals::inv_rep);
                    assert(self@.traps =~= old(self)@.insert_trap(s, d).traps);
                }
                return ;
            }
            i = i + 1;
        }
        proof {
            lemma_assoc_contains(self.traps@, s);
        }
        self.traps.push((s, d));
        proof {
            reveal(Portals::inv_rep);
            assert(self.traps@.drop_last() =~= mid_vec);
            assert(self@.traps == assoc_map(mid_vec).insert(s, d));
            assert(self@.traps =~= old(self)@.insert_trap(s, d).traps);
        }
    }
}

impl PortalsV {
    /// One cell forward from `src`: the normally adjacent cell in the room,
    /// unless a trap is registered on that cell with the same facing, in
    /// which case the trap's arrival pose.
    pub open spec fn spec_step_forward(self, src: GlobalView) -> (bool, GlobalView) {
        let fwd = GlobalView { r: src.r, x: src.x.shifted(src.c.spec_offset_by(1)), c: src.c };
        if self.traps.dom().contains(fwd) {
            (true, self.traps[fwd])
        } else {
            (false, fwd)
        }
    }

    /// Step forward while facing `ego` relative to the current facing,
    /// expressed in the original facing's frame on return.
    pub open spec fn spec_step_directional(self, src: GlobalView, ego: Egocentric) -> (
        bool,
        GlobalView,
    ) {
        let s = self.spec_step_forward(src.spec_rotated(ego));
        (s.0, s.1.spec_rotated(ego.spec_undo()))
    }

    /// A diagonal move decomposed into two orthogonal steps: both orderings
    /// are evaluated and the one crossing more portals wins, ties broken
    /// toward the first ordering.
    pub open spec fn spec_step_directional_2(
        self,
        src: GlobalView,
        step1: Egocentric,
        step2: Egocentric,
    ) -> (bool, GlobalView) {
        let r1 = self.spec_step_directional(src, step1);
        let r1b = self.spec_step_directional(r1.1, step2);
        let r2 = self.spec_step_directional(src, step2);
        let r2b = self.spec_step_directional(r2.1, step1);
        let psum1 = (if r1.0 { 1int } else { 0int }) + (if r1b.0 { 1int } else { 0int });
        let psum2 = (if r2.0 { 1int } else { 0int }) + (if r2b.0 { 1int } else { 0int });
        if psum1 >= psum2 {
            (psum1 > 0, r1b.1)
        } else {
            (psum2 > 0, r2b.1)
        }
    }

    /// A single-cell move classified by its unit offset `(vx, vy)` in ego
    /// space: zero stays put, orthogonal offsets step once, diagonal
    /// offsets step twice.
    pub open spec fn spec_step_offset(self, src: GlobalView, vx: int, vy: int) -> (
        bool,
        GlobalView,
    ) {
        if vx == 0 && vy == 0 {
            (false, src)
        } else if vx == 0 && vy == -1 {
            self.spec_step_directional(src, Egocentric::Forward)
        } else if vx == 1 && vy == 0 {
            self.spec_step_directional(src, Egocentric::Right)
        } else if vx == 0 && vy == 1 {
            self.spec_step_directional(src, Egocentric::Backward)
        } else if vx == -1 && vy == 0 {
            self.spec_step_directional(src, Egocentric::Left)
        } else if vx == -1 && vy == -1 {
            self.spec_step_directional_2(src, Egocentric::Forward, Egocentric::Left)
        } else if vx == 1 && vy == -1 {
            self.spec_step_directional_2(src, Egocentric::Forward, Egocentric::Right)
        } else if vx == -1 && vy == 1 {
            self.spec_step_directional_2(src, Egocentric::Backward, Egocentric::Left)
        } else {
            self.spec_step_directional_2(src, Egocentric::Backward, Egocentric::Right)
        }
    }
}

impl Portals {
    /// Advance one cell in `src.c`'s direction, routing through a trap if
    /// one is registered on the advanced cell.
    pub fn step_forward(&self, src: GlobalView) -> (r: (bool, GlobalView))
        requires
            self.wf(),
            src.x.bounded(isize::MAX - 1),
        ensures
            r == self@.spec_step_forward(src),
    {
        proof {
            lemma_offset_by_bounds(src.c, 1);
        }
        let off = src.c.offset();
        let dst_normal = GlobalView { r: src.r, x: src.x.plus(off), c: src.c };
        match self.trap_get(dst_normal) {
            Some(trap) => (true, trap),
            None => (false, dst_normal),
        }
    }

    /// Step forward while facing `ego` relative to the current facing; the
    /// result is rotated back into the original frame.
    pub fn step_directional(&self, src: GlobalView, ego: Egocentric) -> (r: (bool, GlobalView))
        requires
            self.wf(),
            src.x.bounded(isize::MAX - 1),
        ensures
            r == self@.spec_step_directional(src, ego),
    {
        let s = self.step_forward(src.rotated(ego));
        (s.0, s.1.rotated(ego.undo()))
    }

    /// A diagonal move: both decomposition orders are tried and the one
    /// crossing more portals is returned, ties broken toward `step1` first.
    pub fn step_directional_2(&self, src: GlobalView, step1: Egocentric, step2: Egocentric) -> (r:
        (bool, GlobalView))
        requires
            self.wf(),
            src.x.bounded(isize::MAX - 2),
        ensures
            r == self@.spec_step_directional_2(src, step1, step2),
    {
        let (portal1_1, mid1) = self.step_directional(src, step1);
        proof {
            lemma_offset_by_bounds(src.spec_rotated(step1).c, 1);
        }
        let (portal2_1, out1) = self.step_directional(mid1, step2);

        let (portal1_2, mid2) = self.step_directional(src, step2);
        proof {
            lemma_offset_by_bounds(src.spec_rotated(step2).c, 1);
        }
        let (portal2_2, out2) = self.step_directional(mid2, step1);

        let psum_1: i32 = (if portal1_1 {
            1
        } else {
            0
        }) + (if portal2_1 {
            1
        } else {
            0
        });
        let psum_2: i32 = (if portal1_2 {
            1
        } else {
            0
        }) + (if portal2_2 {
            1
        } else {
            0
        });

        if psum_1 >= psum_2 {
            (psum_1 > 0, out1)
        } else {
            (psum_2 > 0, out2)
        }
    }

    /// Route a single-cell move given as an ego-space offset whose
    /// components are each in `-1..=1`.
    pub fn step_offset(&self, src: GlobalView, ego: EgoVec) -> (r: (bool, GlobalView))
        requires
            self.wf(),
            src.x.bounded(isize::MAX - 2),
            -1 <= ego.x <= 1,
            -1 <= ego.y <= 1,
        ensures
            r == self@.spec_step_offset(src, ego.x as int, ego.y as int),
    {
        if ego.x == 0 && ego.y == 0 {
            (false, src)
        } else if ego.x == 0 && ego.y == -1 {
            self.step_directional(src, Egocentric::Forward)
        } else if ego.x == 1 && ego.y == 0 {
            self.step_directional(src, Egocentric::Right)
        } else if ego.x == 0 && ego.y == 1 {
            self.step_directional(src, Egocentric::Backward)
        } else if ego.x == -1 && ego.y == 0 {
            self.step_directional(src, Egocentric::Left)
        } else if ego.x == -1 && ego.y == -1 {
            self.step_directional_2(src, Egocentric::Forward, Egocentric::Left)
        } else if ego.x == 1 && ego.y == -1 {
            self.step_directional_2(src, Egocentric::Forward, Egocentric::Right)
        } else if ego.x == -1 && ego.y == 1 {
            self.step_directional_2(src, Egocentric::Backward, Egocentric::Left)
        } else {
            self.step_directional_2(src, Egocentric::Backward, Egocentric::Right)
        }
    }

    /// Remove every trap and owner entry of the cells belonging to `ap` and
    /// to `ap`'s mechanical reverse.  Removing an unregistered portal is a
    /// no-op.
    pub fn remove_area_portal(&mut self, ap: AreaPortal)
        requires
            old(self).wf(),
            ap.anchors_bounded(safe_bound() / 4),
        ensures
            final(self).wf(),
            final(self)@ == old(self)@.remove_portal(ap),
    {
        let rev = ap.reverse();
        let cells = self.owner_cells_with(ap, rev);
        self.traps_remove_touching(&cells);
        self.owner_remove_values(ap, rev);
        proof {
            let target = old(self)@.remove_portal(ap);
            assert(self@.owner =~= target.owner);
            assert(self@.traps =~= target.traps);
        }
    }

    /// Evict every portal that owns a sensing or arrival cell of `ap`'s
    /// seam, walking the seam in order.
    fn remove_overlapping_portals(&mut self, ap: AreaPortal)
        requires
            old(self).wf(),
            ap.anchors_bounded(safe_bound() / 4),
        ensures
            final(self).wf(),
            final(self)@ == old(self)@.evict_from(ap, 0),
    {
        let sz = ap.size;
        let mut i: isize = 0;
        while i < sz
            invariant
                self.wf(),
                ap.anchors_bounded(safe_bound() / 4),
                sz == ap.size,
                0 <= i <= sz,
                old(self)@.evict_from(ap, 0) == self@.evict_from(ap, i as int),
            decreases sz - i,
        {
            let s = ap.trap_cell_at(i);
            let d = ap.arrival_cell_at(i);
            let ghost pre = self@;
            match self.owner_get(s) {
                Some(owner) => {
                    proof {
                        assert(pre.owner.dom().contains(s));
                    }
                    self.remove_area_portal(owner);
                },
                None => {},
            }
            let ghost mid = self@;
            match self.owner_get(d) {
                Some(owner) => {
                    proof {
                        assert(mid.owner.dom().contains(d));
                    }
                    self.remove_area_portal(owner);
                },
                None => {},
            }
            proof {
                assert(self@ == pre.evict_step(ap, i as int));
                assert(pre.evict_from(ap, i as int) == self@.evict_from(ap, i as int + 1));
            }
            i = i + 1;
        }
    }

    /// Register every cell of `ap`'s seam as a one-way trap run.
    fn actually_add_one_way_area_portal(&mut self, ap: AreaPortal)
        requires
            old(self).wf(),
            ap.anchors_bounded(safe_bound() / 4),
        ensures
            final(self).wf(),
            final(self)@ == old(self)@.add_oneway_from(ap, 0),
    {
        let sz = ap.size;
        let mut i: isize = 0;
        while i < sz
            invariant
                self.wf(),
                ap.anchors_bounded(safe_bound() / 4),
                sz == ap.size,
                0 <= i <= sz,
                old(self)@.add_oneway_from(ap, 0) == self@.add_oneway_from(ap, i as int),
            decreases sz - i,
        {
            let s = ap.trap_cell_at(i);
            let d = ap.arrival_cell_at(i);
            let ghost pre = self@;
            proof {
                lemma_offset_by_bounds(ap.dst.c.spec_right(), i as int);
                assert(d.x.bounded(safe_bound()));
            }
            self.trap_insert(s, d);
            self.owner_insert(s, ap);
            self.owner_insert(d, ap);
            proof {
                assert(self@ == pre.add_oneway_step(ap, i as int));
                assert(pre.add_oneway_from(ap, i as int) == self@.add_oneway_from(
                    ap,
                    i as int + 1,
                ));
            }
            i = i + 1;
        }
    }

    /// Register `ap` together with its mechanical reverse, first evicting
    /// every portal whose cells overlap either seam.  Adding a portal that
    /// is already registered is a no-op.
    pub fn add_area_portal(&mut self, ap: AreaPortal)
        requires
            old(self).wf(),
            ap.wf(),
        ensures
            final(self).wf(),
            final(self)@ == old(self)@.spec_add(ap),
    {
        if self.owner_has_value(ap) {
            return ;
        }
        proof {
            ap.lemma_reverse_bounded();
        }
        let rev = ap.reverse();
        self.remove_overlapping_portals(ap);
        self.remove_overlapping_portals(rev);
        self.actually_add_one_way_area_portal(ap);
        self.actually_add_one_way_area_portal(rev);
    }
}

/// Inserting a bounded owner keeps the owner index bounded.
proof fn lemma_owners_bounded_insert(m: PortalsV, k: GlobalView, ap: AreaPortal)
    requires
        m.owners_bounded(),
        ap.anchors_bounded(safe_bound() / 4),
    ensures
        (PortalsV { owner: m.owner.insert(k, ap), ..m }).owners_bounded(),
{
}

/// One forward step from a position within `b` stays within `b + 1`:
/// either the normally adjacent cell, or a trap destination, which the
/// graph keeps within `safe_bound()`.
pub proof fn lemma_step_forward_bounded(m: PortalsV, src: GlobalView, b: int)
    requires
        m.traps_bounded(),
        src.x.bounded(b),
        safe_bound() <= b,
        b + 1 <= isize::MAX,
    ensures
        m.spec_step_forward(src).1.x.bounded(b + 1),
{
    lemma_offset_by_bounds(src.c, 1);
}

/// A directional step keeps the same coordinate bound as a forward step:
/// rotations do not move the position.
pub proof fn lemma_step_directional_bounded(m: PortalsV, src: GlobalView, ego: Egocentric, b: int)
    requires
        m.traps_bounded(),
        src.x.bounded(b),
        safe_bound() <= b,
        b + 1 <= isize::MAX,
    ensures
        m.spec_step_directional(src, ego).1.x.bounded(b + 1),
{
    lemma_step_forward_bounded(m, src.spec_rotated(ego), b);
}

/// A diagonal step stays within `b + 2`.
pub proof fn lemma_step_directional_2_bounded(
    m: PortalsV,
    src: GlobalView,
    s1: Egocentric,
    s2: Egocentric,
    b: int,
)
    requires
        m.traps_bounded(),
        src.x.bounded(b),
        safe_bound() <= b,
        b + 2 <= isize::MAX,
    ensures
        m.spec_step_directional_2(src, s1, s2).1.x.bounded(b + 2),
{
    lemma_step_directional_bounded(m, src, s1, b);
    lemma_step_directional_bounded(m, src, s2, b);
    lemma_step_directional_bounded(m, m.spec_step_directional(src, s1).1, s2, b + 1);
    lemma_step_directional_bounded(m, m.spec_step_directional(src, s2).1, s1, b + 1);
}

/// A single-cell move from a position within `b` lands within `b + 2`.
pub proof fn lemma_step_offset_bounded(m: PortalsV, src: GlobalView, vx: int, vy: int, b: int)
    requires
        m.traps_bounded(),
        src.x.bounded(b),
        safe_bound() <= b,
        b + 2 <= isize::MAX,
    ensures
        m.spec_step_offset(src, vx, vy).1.x.bounded(b + 2),
{
    lemma_step_directional_bounded(m, src, Egocentric::Forward, b);
    lemma_step_directional_bounded(m, src, Egocentric::Right, b);
    lemma_step_directional_bounded(m, src, Egocentric::Backward, b);
    lemma_step_directional_bounded(m, src, Egocentric::Left, b);
    lemma_step_directional_2_bounded(m, src, Egocentric::Forward, Egocentric::Left, b);
    lemma_step_directional_2_bounded(m, src, Egocentric::Forward, Egocentric::Right, b);
    lemma_step_directional_2_bounded(m, src, Egocentric::Backward, Egocentric::Left, b);
    lemma_step_directional_2_bounded(m, src, Egocentric::Backward, Egocentric::Right, b);
}

/// No registered cell belongs to `bp`.
pub open spec fn no_portal(m: PortalsV, bp: AreaPortal) -> bool {
    forall|k: GlobalView| #[trigger] m.owner.dom().contains(k) ==> m.owner[k] != bp
}

/// `a`'s owner index is a restriction of `b`'s: everything registered in
/// `a` is registered in `b` to the same portal.
pub open spec fn owner_sub(a: PortalsV, b: PortalsV) -> bool {
    forall|k: GlobalView|
        #[trigger] a.owner.dom().contains(k) ==> b.owner.dom().contains(k) && a.owner[k]
            == b.owner[k]
}

/// Removal only shrinks the owner index.
proof fn lemma_remove_portal_sub(m: PortalsV, x: AreaPortal)
    ensures
        owner_sub(m.remove_portal(x), m),
{
}

/// After removing `x`, no cell belongs to `x` or to `x`'s reverse.
proof fn lemma_remove_portal_kills(m: PortalsV, x: AreaPortal)
    ensures
        no_portal(m.remove_portal(x), x),
        no_portal(m.remove_portal(x), x.spec_reverse()),
{
}

/// An eviction step only shrinks the owner index.
proof fn lemma_evict_step_sub(m: PortalsV, ap: AreaPortal, i: int)
    ensures
        owner_sub(m.evict_step(ap, i), m),
{
    let s = ap.trap_cell(i);
    if m.owner.dom().contains(s) {
        lemma_remove_portal_sub(m, m.owner[s]);
    }
    let v1 = if m.owner.dom().contains(s) {
        m.remove_portal(m.owner[s])
    } else {
        m
    };
    if v1.owner.dom().contains(ap.arrival_cell(i)) {
        lemma_remove_portal_sub(v1, v1.owner[ap.arrival_cell(i)]);
    }
}

/// A seam walk of evictions only shrinks the owner index.
proof fn lemma_evict_from_sub(m: PortalsV, ap: AreaPortal, i: int)
    ensures
        owner_sub(m.evict_from(ap, i), m),
    decreases ap.size - i,
{
    if i < ap.size {
        lemma_evict_step_sub(m, ap, i);
        lemma_evict_from_sub(m.evict_step(ap, i), ap, i + 1);
    }
}

/// Once no cell belongs to `bp`, further evictions keep it that way.
proof fn lemma_evict_from_no_portal(m: PortalsV, ap: AreaPortal, i: int, bp: AreaPortal)
    requires
        no_portal(m, bp),
    ensures
        no_portal(m.evict_from(ap, i), bp),
{
    lemma_evict_from_sub(m, ap, i);
}

/// If the seam walk starting at `i` passes a cell registered to `bp`, the
/// walk removes every cell of `bp`.
proof fn lemma_evict_from_kills(m: PortalsV, ap: AreaPortal, i: int, j: int, c: GlobalView)
    requires
        0 <= i <= j < ap.size,
        c == ap.trap_cell(j) || c == ap.arrival_cell(j),
        m.owner.dom().contains(c),
    ensures
        no_portal(m.evict_from(ap, i), m.owner[c]),
    decreases ap.size - i,
{
    let bp = m.owner[c];
    let s = ap.trap_cell(i);
    let d = ap.arrival_cell(i);
    let v1 = if m.owner.dom().contains(s) {
        m.remove_portal(m.owner[s])
    } else {
        m
    };
    let v2 = if v1.owner.dom().contains(d) {
        v1.remove_portal(v1.owner[d])
    } else {
        v1
    };
    if m.owner.dom().contains(s) {
        lemma_remove_portal_sub(m, m.owner[s]);
        lemma_remove_portal_kills(m, m.owner[s]);
    }
    if v1.owner.dom().contains(d) {
        lemma_remove_portal_sub(v1, v1.owner[d]);
        lemma_remove_portal_kills(v1, v1.owner[d]);
    }
    if !v1.owner.dom().contains(c) {
        // the first removal took c with it, so bp was that portal or its
        // reverse, and both are gone
        assert(m.owner.dom().contains(s));
        assert(bp == m.owner[s] || bp == m.owner[s].spec_reverse());
        assert(no_portal(v1, bp));
        lemma_evict_from_no_portal(v2, ap, i + 1, bp);
    } else if !v2.owner.dom().contains(c) {
        assert(v1.owner.dom().contains(d));
        assert(v1.owner[c] == bp);
        assert(bp == v1.owner[d] || bp == v1.owner[d].spec_reverse());
        assert(no_portal(v2, bp));
        lemma_evict_from_no_portal(v2, ap, i + 1, bp);
    } else if i == j {
        // this step's own cells include c, so c's owner was removed here
        assert(v2.owner.dom().contains(c) && v2.owner[c] == bp);
        if c == s {
            assert(m.owner.dom().contains(s) && m.owner[s] == bp);
            assert(no_portal(v1, bp));
            assert(false);
        } else {
            assert(v1.owner.dom().contains(d) && v1.owner[d] == bp);
            assert(no_portal(v2, bp));
            assert(false);
        }
    } else {
        assert(v2.owner[c] == bp);
        lemma_evict_from_kills(v2, ap, i + 1, j, c);
    }
}

/// If `c` was registered but the seam walk removed it, the walk removed
/// every cell of `c`'s portal.
proof fn lemma_evict_from_lost(m: PortalsV, ap: AreaPortal, i: int, c: GlobalView)
    requires
        m.owner.dom().contains(c),
        !m.evict_from(ap, i).owner.dom().contains(c),
    ensures
        no_portal(m.evict_from(ap, i), m.owner[c]),
    decreases ap.size - i,
{
    let bp = m.owner[c];
    if i >= ap.size {
        assert(false);
    } else {
        let s = ap.trap_cell(i);
        let d = ap.arrival_cell(i);
        let v1 = if m.owner.dom().contains(s) {
            m.remove_portal(m.owner[s])
        } else {
            m
        };
        let v2 = if v1.owner.dom().contains(d) {
            v1.remove_portal(v1.owner[d])
        } else {
            v1
        };
        if m.owner.dom().contains(s) {
            lemma_remove_portal_sub(m, m.owner[s]);
            lemma_remove_portal_kills(m, m.owner[s]);
        }
        if v1.owner.dom().contains(d) {
            lemma_remove_portal_sub(v1, v1.owner[d]);
            lemma_remove_portal_kills(v1, v1.owner[d]);
        }
        if !v1.owner.dom().contains(c) {
            assert(m.owner.dom().contains(s));
            assert(bp == m.owner[s] || bp == m.owner[s].spec_reverse());
            assert(no_portal(v1, bp));
            lemma_evict_from_no_portal(v2, ap, i + 1, bp);
        } else if !v2.owner.dom().contains(c) {
            assert(v1.owner.dom().contains(d));
            assert(bp == v1.owner[d] || bp == v1.owner[d].spec_reverse());
            assert(no_portal(v2, bp));
            lemma_evict_from_no_portal(v2, ap, i + 1, bp);
        } else {
            assert(v2.owner[c] == bp);
            lemma_evict_from_lost(v2, ap, i + 1, c);
        }
    }
}

/// Registering a seam writes only its own portal as owner: any other
/// portal absent before stays absent.
proof fn lemma_add_oneway_no_portal(m: PortalsV, ap: AreaPortal, i: int, bp: AreaPortal)
    requires
        no_portal(m, bp),
        bp != ap,
    ensures
        no_portal(m.add_oneway_from(ap, i), bp),
    decreases ap.size - i,
{
    if i < ap.size {
        lemma_add_oneway_no_portal(m.add_oneway_step(ap, i), ap, i + 1, bp);
    }
}

/// Registering a seam leaves owner entries outside its key set unchanged.
proof fn lemma_add_oneway_frame(m: PortalsV, ap: AreaPortal, i: int, k: GlobalView)
    requires
        0 <= i,
        !ap.seam_keys().contains(k),
    ensures
        m.add_oneway_from(ap, i).owner.dom().contains(k) == m.owner.dom().contains(k),
        m.add_oneway_from(ap, i).owner.dom().contains(k) ==> m.add_oneway_from(ap, i).owner[k]
            == m.owner[k],
    decreases ap.size - i,
{
    if i < ap.size {
        assert(k != ap.trap_cell(i) && k != ap.arrival_cell(i));
        lemma_add_oneway_frame(m.add_oneway_step(ap, i), ap, i + 1, k);
    }
}

/// After registering a seam of positive size, its last arrival cell is
/// registered to it.
proof fn lemma_add_oneway_registers(m: PortalsV, ap: AreaPortal, i: int)
    requires
        0 <= i < ap.size,
    ensures
        m.add_oneway_from(ap, i).owner.dom().contains(ap.arrival_cell(ap.size - 1)),
        m.add_oneway_from(ap, i).owner[ap.arrival_cell(ap.size - 1)] == ap,
    decreases ap.size - i,
{
    if i == ap.size - 1 {
        assert(m.add_oneway_from(ap, i) == m.add_oneway_step(ap, i).add_oneway_from(ap, i + 1));
    } else {
        lemma_add_oneway_registers(m.add_oneway_step(ap, i), ap, i + 1);
    }
}

/// Every trap entry's sensing and arrival cells are registered cells:
/// the owner index covers the routing index on both sides.  This holds
/// of the empty graph and is preserved by every graph operation.
pub open spec fn traps_owned(m: PortalsV) -> bool {
    forall|k: GlobalView| #[trigger]
        m.traps.dom().contains(k) ==> m.owner.dom().contains(k) && m.owner.dom().contains(
            m.traps[k],
        )
}

/// The empty graph routes nothing.
pub proof fn lemma_empty_traps_owned()
    ensures
        traps_owned(PortalsV::empty()),
{
}

/// Removing a portal keeps the routing index covered: removed cells take
/// their trap entries with them.
pub proof fn lemma_remove_portal_traps_owned(m: PortalsV, x: AreaPortal)
    requires
        traps_owned(m),
    ensures
        traps_owned(m.remove_portal(x)),
{
    let r = m.remove_portal(x);
    assert forall|k: GlobalView| #[trigger] r.traps.dom().contains(k) implies r.owner.dom(
    ).contains(k) && r.owner.dom().contains(r.traps[k]) by {
        assert(m.traps.dom().contains(k));
    }
}

proof fn lemma_evict_step_traps_owned(m: PortalsV, ap: AreaPortal, i: int)
    requires
        traps_owned(m),
    ensures
        traps_owned(m.evict_step(ap, i)),
{
    let s = ap.trap_cell(i);
    if m.owner.dom().contains(s) {
        lemma_remove_portal_traps_owned(m, m.owner[s]);
    }
    let v1 = if m.owner.dom().contains(s) {
        m.remove_portal(m.owner[s])
    } else {
        m
    };
    if v1.owner.dom().contains(ap.arrival_cell(i)) {
        lemma_remove_portal_traps_owned(v1, v1.owner[ap.arrival_cell(i)]);
    }
}

proof fn lemma_evict_from_traps_owned(m: PortalsV, ap: AreaPortal, i: int)
    requires
        traps_owned(m),
    ensures
        traps_owned(m.evict_from(ap, i)),
    decreases ap.size - i,
{
    if i < ap.size {
        lemma_evict_step_traps_owned(m, ap, i);
        lemma_evict_from_traps_owned(m.evict_step(ap, i), ap, i + 1);
    }
}

proof fn lemma_add_oneway_step_traps_owned(m: PortalsV, ap: AreaPortal, i: int)
    requires
        traps_owned(m),
    ensures
        traps_owned(m.add_oneway_step(ap, i)),
{
    let r = m.add_oneway_step(ap, i);
    assert forall|k: GlobalView| #[trigger] r.traps.dom().contains(k) implies r.owner.dom(
    ).contains(k) && r.owner.dom().contains(r.traps[k]) by {
        if k != ap.trap_cell(i) {
            assert(m.traps.dom().contains(k));
        }
    }
}

proof fn lemma_add_oneway_from_traps_owned(m: PortalsV, ap: AreaPortal, i: int)
    requires
        traps_owned(m),
    ensures
        traps_owned(m.add_oneway_from(ap, i)),
    decreases ap.size - i,
{
    if i < ap.size {
        lemma_add_oneway_step_traps_owned(m, ap, i);
        lemma_add_oneway_from_traps_owned(m.add_oneway_step(ap, i), ap, i + 1);
    }
}

/// Adding a portal keeps the routing index covered.
pub proof fn lemma_spec_add_traps_owned(m: PortalsV, ap: AreaPortal)
    requires
        traps_owned(m),
    ensures
        traps_owned(m.spec_add(ap)),
{
    if !m.has_portal(ap) {
        let rev = ap.spec_reverse();
        lemma_evict_from_traps_owned(m, ap, 0);
        lemma_evict_from_traps_owned(m.evict_from(ap, 0), rev, 0);
        let e2 = m.evict_from(ap, 0).evict_from(rev, 0);
        lemma_add_oneway_from_traps_owned(e2, ap, 0);
        lemma_add_oneway_from_traps_owned(e2.add_oneway_from(ap, 0), rev, 0);
    }
}

/// The routing half of overlap eviction: after an add whose seam
/// overlaps a prior portal's cell, every remaining trap entry senses at,
/// and routes to, cells owned by surviving portals — none owned by the
/// evicted one.
pub proof fn lemma_add_evicts_overlapping_traps(m: PortalsV, ap: AreaPortal, c: GlobalView)
    requires
        traps_owned(m),
        !m.has_portal(ap),
        m.owner.dom().contains(c),
        m.owner[c] != ap.spec_reverse(),
        ap.seam_keys().contains(c) || ap.spec_reverse().seam_keys().contains(c),
    ensures
        traps_owned(m.spec_add(ap)),
        forall|k: GlobalView| #[trigger]
            m.spec_add(ap).traps.dom().contains(k) ==> m.spec_add(ap).owner[k] != m.owner[c]
                && m.spec_add(ap).owner[m.spec_add(ap).traps[k]] != m.owner[c],
{
    lemma_spec_add_traps_owned(m, ap);
    lemma_add_evicts_overlapping(m, ap, c);
}

/// Within one run, distinct seam indices give distinct sensing cells and
/// distinct arrival cells: the run advances cell by cell along the
/// anchor's right-hand direction.
proof fn lemma_run_cells_distinct(ap: AreaPortal, i: int, j: int)
    requires
        ap.anchors_bounded(safe_bound() / 4),
        0 <= i < ap.size,
        0 <= j < ap.size,
        i != j,
    ensures
        ap.trap_cell(i) != ap.trap_cell(j),
        ap.arrival_cell(i) != ap.arrival_cell(j),
{
    lemma_offset_by_bounds(ap.src.c.spec_right(), i);
    lemma_offset_by_bounds(ap.src.c.spec_right(), j);
    lemma_offset_by_bounds(ap.src.c, 1);
    lemma_offset_by_bounds(ap.dst.c.spec_right(), i);
    lemma_offset_by_bounds(ap.dst.c.spec_right(), j);
}

/// Registering another seam leaves a trap entry alone as long as none of
/// its cells collide with the entry's sensing or arrival cell.
proof fn lemma_add_oneway_frame_trap(
    m: PortalsV,
    ap2: AreaPortal,
    k: int,
    key: GlobalView,
    val: GlobalView,
)
    requires
        m.traps.dom().contains(key),
        m.traps[key] == val,
        forall|l: int|
            k <= l < ap2.size ==> #[trigger] ap2.trap_cell(l) != key && ap2.arrival_cell(l) != val,
    ensures
        m.add_oneway_from(ap2, k).traps.dom().contains(key),
        m.add_oneway_from(ap2, k).traps[key] == val,
    decreases ap2.size - k,
{
    if k < ap2.size {
        let m2 = m.add_oneway_step(ap2, k);
        assert(ap2.trap_cell(k) != key && ap2.arrival_cell(k) != val);
        assert(m2.traps.dom().contains(key) && m2.traps[key] == val);
        lemma_add_oneway_frame_trap(m2, ap2, k + 1, key, val);
    }
}

/// Registering a seam routes the sensing cell of every index at or past
/// the starting point to its paired arrival cell.
proof fn lemma_add_oneway_registers_trap(m: PortalsV, ap: AreaPortal, k: int, j: int)
    requires
        ap.anchors_bounded(safe_bound() / 4),
        0 <= k <= j < ap.size,
    ensures
        m.add_oneway_from(ap, k).traps.dom().contains(ap.trap_cell(j)),
        m.add_oneway_from(ap, k).traps[ap.trap_cell(j)] == ap.arrival_cell(j),
    decreases ap.size - k,
{
    let m2 = m.add_oneway_step(ap, k);
    if k == j {
        assert(m2.traps.dom().contains(ap.trap_cell(j)) && m2.traps[ap.trap_cell(j)]
            == ap.arrival_cell(j));
        assert forall|l: int| k + 1 <= l < ap.size implies #[trigger] ap.trap_cell(l)
            != ap.trap_cell(j) && ap.arrival_cell(l) != ap.arrival_cell(j) by {
            lemma_run_cells_distinct(ap, l, j);
        }
        lemma_add_oneway_frame_trap(m2, ap, k + 1, ap.trap_cell(j), ap.arrival_cell(j));
    } else {
        lemma_add_oneway_registers_trap(m2, ap, k + 1, j);
    }
}

/// Full per-cell registration: after adding a portal that was not yet
/// registered (one that is its own reverse, or whose runs do not collide
/// with its reverse's), every seam index of both runs routes its sensing
/// cell to its paired arrival cell.
pub proof fn lemma_add_registers_traps(m: PortalsV, ap: AreaPortal, i: int)
    requires
        ap.wf(),
        !m.has_portal(ap),
        0 <= i < ap.size,
        ap == ap.spec_reverse() || ap.seam_keys().disjoint(ap.spec_reverse().seam_keys()),
    ensures
        m.spec_add(ap).traps.dom().contains(ap.trap_cell(i)),
        m.spec_add(ap).traps[ap.trap_cell(i)] == ap.arrival_cell(i),
        m.spec_add(ap).traps.dom().contains(ap.spec_reverse().trap_cell(i)),
        m.spec_add(ap).traps[ap.spec_reverse().trap_cell(i)] == ap.spec_reverse().arrival_cell(i),
{
    let rev = ap.spec_reverse();
    ap.lemma_reverse_bounded();
    let e2 = m.evict_from(ap, 0).evict_from(rev, 0);
    let a1 = e2.add_oneway_from(ap, 0);
    lemma_add_oneway_registers_trap(e2, ap, 0, i);
    lemma_add_oneway_registers_trap(a1, rev, 0, i);
    if ap != rev {
        assert(ap.seam_keys().contains(ap.trap_cell(i)) && ap.seam_keys().contains(
            ap.arrival_cell(i),
        )) by {
            assert(0 <= i < ap.size && (ap.trap_cell(i) == ap.trap_cell(i) || ap.trap_cell(i)
                == ap.arrival_cell(i)));
            assert(0 <= i < ap.size && (ap.arrival_cell(i) == ap.trap_cell(i)
                || ap.arrival_cell(i) == ap.arrival_cell(i)));
        }
        assert forall|l: int| 0 <= l < rev.size implies #[trigger] rev.trap_cell(l)
            != ap.trap_cell(i) && rev.arrival_cell(l) != ap.arrival_cell(i) by {
            assert(rev.seam_keys().contains(rev.trap_cell(l)) && rev.seam_keys().contains(
                rev.arrival_cell(l),
            )) by {
                assert(0 <= l < rev.size && (rev.trap_cell(l) == rev.trap_cell(l)
                    || rev.trap_cell(l) == rev.arrival_cell(l)));
                assert(0 <= l < rev.size && (rev.arrival_cell(l) == rev.trap_cell(l)
                    || rev.arrival_cell(l) == rev.arrival_cell(l)));
            }
        }
        lemma_add_oneway_frame_trap(a1, rev, 0, ap.trap_cell(i), ap.arrival_cell(i));
    }
}

/// A portal's own seam cells cannot collide with its mechanical
/// reverse's unless the portal folds back onto itself: whenever the two
/// anchors sit in different rooms, or the destination does not face
/// exactly back along the source, the two key sets are disjoint.
pub proof fn lemma_seam_keys_disjoint(ap: AreaPortal)
    requires
        ap.src.r != ap.dst.r || ap.dst.c != ap.src.c.spec_reverse(),
    ensures
        ap.seam_keys().disjoint(ap.spec_reverse().seam_keys()),
{
    let rev = ap.spec_reverse();
    assert forall|c: GlobalView| ap.seam_keys().contains(c) implies !rev.seam_keys().contains(
        c,
    ) by {
        let i = choose|i: int|
            0 <= i < ap.size && (c == ap.trap_cell(i) || c == ap.arrival_cell(i));
        if rev.seam_keys().contains(c) {
            let j = choose|j: int|
                0 <= j < rev.size && (c == rev.trap_cell(j) || c == rev.arrival_cell(j));
            assert(false);
        }
    }
}

/// Adding the same portal twice leaves the graph exactly as adding it
/// once.  (Stated for seams whose own cells do not collide with their
/// mechanical reverse's cells, except for the self-reverse seam, which is
/// also covered.)
pub proof fn lemma_add_area_portal_idempotent(m: PortalsV, ap: AreaPortal)
    requires
        ap.wf(),
        1 <= ap.size,
        ap == ap.spec_reverse() || ap.seam_keys().disjoint(ap.spec_reverse().seam_keys()),
    ensures
        m.spec_add(ap).spec_add(ap) == m.spec_add(ap),
{
    let m1 = m.spec_add(ap);
    if m.has_portal(ap) {
        assert(m1 == m);
    } else {
        let rev = ap.spec_reverse();
        let e2 = m.evict_from(ap, 0).evict_from(rev, 0);
        let a1 = e2.add_oneway_from(ap, 0);
        lemma_add_oneway_registers(e2, ap, 0);
        let cstar = ap.arrival_cell(ap.size - 1);
        assert(a1.owner.dom().contains(cstar) && a1.owner[cstar] == ap);
        if ap == rev {
            lemma_add_oneway_registers(a1, rev, 0);
            assert(m1.owner.dom().contains(rev.arrival_cell(rev.size - 1)));
            assert(m1.has_portal(ap));
        } else {
            assert(ap.seam_keys().contains(cstar)) by {
                assert(0 <= ap.size - 1 < ap.size && cstar == ap.arrival_cell(ap.size - 1));
            }
            assert(!rev.seam_keys().contains(cstar));
            lemma_add_oneway_frame(a1, rev, 0, cstar);
            assert(m1.owner.dom().contains(cstar) && m1.owner[cstar] == ap);
            assert(m1.has_portal(ap));
        }
        assert(m1.spec_add(ap) == m1);
    }
}

/// Adding a portal whose seam overlaps an existing portal's cells removes
/// that portal entirely: after the add, no cell belongs to it (shown for
/// every prior portal other than the added seam's own mechanical reverse).
pub proof fn lemma_add_evicts_overlapping(m: PortalsV, ap: AreaPortal, c: GlobalView)
    requires
        !m.has_portal(ap),
        m.owner.dom().contains(c),
        m.owner[c] != ap.spec_reverse(),
        ap.seam_keys().contains(c) || ap.spec_reverse().seam_keys().contains(c),
    ensures
        no_portal(m.spec_add(ap), m.owner[c]),
{
    let bp = m.owner[c];
    let rev = ap.spec_reverse();
    assert(bp != ap);
    let e1 = m.evict_from(ap, 0);
    let e2 = e1.evict_from(rev, 0);
    if ap.seam_keys().contains(c) {
        let j = choose|j: int|
            0 <= j < ap.size && (c == ap.trap_cell(j) || c == ap.arrival_cell(j));
        lemma_evict_from_kills(m, ap, 0, j, c);
        lemma_evict_from_no_portal(e1, rev, 0, bp);
    } else {
        let j = choose|j: int|
            0 <= j < rev.size && (c == rev.trap_cell(j) || c == rev.arrival_cell(j));
        if e1.owner.dom().contains(c) {
            lemma_evict_from_sub(m, ap, 0);
            assert(e1.owner[c] == bp);
            lemma_evict_from_kills(e1, rev, 0, j, c);
        } else {
            lemma_evict_from_lost(m, ap, 0, c);
            lemma_evict_from_no_portal(e1, rev, 0, bp);
        }
    }
    assert(no_portal(e2, bp));
    lemma_add_oneway_no_portal(e2, ap, 0, bp);
    lemma_add_oneway_no_portal(e2.add_oneway_from(ap, 0), rev, 0, bp);
}

/// Round trip through a freshly added single-cell portal: stepping forward
/// from its source pose lands on its destination pose, and stepping
/// forward from the reverse seam's source pose lands back at the source
/// side.  (Stated for seams whose single trap cell and arrival cell do not
/// collide with the reverse seam's.)
pub proof fn lemma_portal_round_trip(ap: AreaPortal)
    requires
        ap.wf(),
        ap.size == 1,
        ap.spec_reverse().trap_cell(0) != ap.trap_cell(0),
        ap.spec_reverse().arrival_cell(0) != ap.arrival_cell(0),
    ensures
        PortalsV::empty().spec_add(ap).spec_step_forward(ap.src) == (true, ap.dst),
        PortalsV::empty().spec_add(ap).spec_step_forward(ap.spec_reverse().src) == (
            true,
            ap.spec_reverse().dst,
        ),
{
    let e = PortalsV::empty();
    let rev = ap.spec_reverse();
    assert(!e.has_portal(ap));
    lemma_evict_from_empty(ap, 0);
    lemma_evict_from_empty(rev, 0);
    let a1 = e.add_oneway_from(ap, 0);
    let m = a1.add_oneway_from(rev, 0);
    assert(m == e.spec_add(ap));
    let tc = ap.trap_cell(0);
    let ac = ap.arrival_cell(0);
    let tc2 = rev.trap_cell(0);
    let ac2 = rev.arrival_cell(0);
    reveal_with_fuel(PortalsV::add_oneway_from, 3);
    assert(a1 == e.add_oneway_step(ap, 0));
    assert(a1.traps =~= Map::empty().insert(tc, ac));
    assert(m == a1.add_oneway_step(rev, 0));
    assert(m.traps =~= a1.traps.remove(tc2).insert(tc2, ac2)) by {
        assert forall|k: GlobalView| #[trigger]
            m.traps.dom().contains(k) == a1.traps.remove(tc2).insert(tc2, ac2).dom().contains(
                k,
            ) && (m.traps.dom().contains(k) ==> m.traps[k] == a1.traps.remove(tc2).insert(
                tc2,
                ac2,
            )[k]) by {}
    }
    assert(m.traps.dom().contains(tc) && m.traps[tc] == ac);
    assert(m.traps.dom().contains(tc2) && m.traps[tc2] == ac2);
    assert(ac == ap.dst);
    assert(ac2 == rev.dst);
    assert(ap.src.x.shifted(ap.src.c.spec_offset_by(1)) == tc.x);
    assert(m.spec_step_forward(ap.src) == (true, ap.dst));
    assert(rev.src.x.shifted(rev.src.c.spec_offset_by(1)) == tc2.x);
    assert(m.spec_step_forward(rev.src) == (true, rev.dst));
}

/// Evicting along a seam of an empty graph changes nothing.
proof fn lemma_evict_from_empty(ap: AreaPortal, i: int)
    ensures
        PortalsV::empty().evict_from(ap, i) == PortalsV::empty(),
    decreases ap.size - i,
{
    if i < ap.size {
        assert(PortalsV::empty().evict_step(ap, i) == PortalsV::empty());
        lemma_evict_from_empty(ap, i + 1);
    }
}

} // verus!
