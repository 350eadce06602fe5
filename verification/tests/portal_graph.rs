use egosphere::AreaPortal;
use egosphere::Cardinal;
use egosphere::Egocentric;
use egosphere::GlobalPos;
use egosphere::GlobalView;
use egosphere::Portals;
use egosphere::RoomId;

fn view(room: u64, x: isize, y: isize, c: Cardinal) -> GlobalView {
    GlobalView { r: RoomId(room), x: GlobalPos { x, y }, c }
}

/// A size-1 portal: stepping forward from its source pose teleports to its
/// destination pose, and the mechanically derived reverse seam routes
/// back from the destination side.
#[test]
fn portal_round_trip() {
    let mut g = Portals::new();
    let a = view(0, 0, 0, Cardinal::North);
    let b = view(1, 10, 10, Cardinal::North);
    g.add_area_portal(AreaPortal { src: a, dst: b, size: 1 });

    assert_eq!(g.step_forward(a), (true, b));

    // the reverse seam: from the destination cell turned around, one step
    // forward lands back on the source anchor, turned around
    let b_exit = view(1, 10, 10, Cardinal::South);
    assert_eq!(g.step_forward(b_exit), (true, view(0, 0, 0, Cardinal::South)));
}

/// Walking forward through a wide seam uses the cell-by-cell pairing.
#[test]
fn wide_portal_pairs_cells() {
    let mut g = Portals::new();
    // seam of 3 cells anchored at (0,0) facing North: the seam runs east
    let ap = AreaPortal {
        src: view(0, 0, 0, Cardinal::North),
        dst: view(1, 50, 50, Cardinal::North),
        size: 3,
    };
    g.add_area_portal(ap);
    assert_eq!(
        g.step_forward(view(0, 0, 0, Cardinal::North)),
        (true, view(1, 50, 50, Cardinal::North))
    );
    assert_eq!(
        g.step_forward(view(0, 1, 0, Cardinal::North)),
        (true, view(1, 51, 50, Cardinal::North))
    );
    assert_eq!(
        g.step_forward(view(0, 2, 0, Cardinal::North)),
        (true, view(1, 52, 50, Cardinal::North))
    );
    // a cell past the end of the seam steps normally
    assert_eq!(
        g.step_forward(view(0, 3, 0, Cardinal::North)),
        (false, view(0, 3, -1, Cardinal::North))
    );
}

/// Adding the same portal twice leaves the graph exactly as adding it
/// once, and removing an untracked portal is a no-op.
#[test]
fn add_is_idempotent_and_remove_untracked_is_noop() {
    let a = view(0, 0, 0, Cardinal::North);
    let b = view(1, 10, 10, Cardinal::North);
    let ap = AreaPortal { src: a, dst: b, size: 1 };

    let mut once = Portals::new();
    once.add_area_portal(ap);
    let mut twice = Portals::new();
    twice.add_area_portal(ap);
    twice.add_area_portal(ap);

    let probes = [
        a,
        b,
        view(1, 10, 10, Cardinal::South),
        view(0, 0, 0, Cardinal::South),
        view(0, 5, 5, Cardinal::East),
    ];
    for p in probes {
        assert_eq!(once.step_forward(p), twice.step_forward(p));
        for e in [Egocentric::Forward, Egocentric::Right, Egocentric::Backward, Egocentric::Left] {
            assert_eq!(once.step_directional(p, e), twice.step_directional(p, e));
        }
    }

    // removing a portal that was never added changes nothing
    let untracked = AreaPortal {
        src: view(0, 100, 100, Cardinal::East),
        dst: view(1, -40, 7, Cardinal::West),
        size: 2,
    };
    once.remove_area_portal(untracked);
    assert_eq!(once.step_forward(a), (true, b));
}

/// Removing a portal unregisters both its seam and its reverse seam.
#[test]
fn remove_area_portal_unroutes_both_directions() {
    let mut g = Portals::new();
    let a = view(0, 0, 0, Cardinal::North);
    let b = view(1, 10, 10, Cardinal::North);
    let ap = AreaPortal { src: a, dst: b, size: 1 };
    g.add_area_portal(ap);
    g.remove_area_portal(ap);
    assert_eq!(g.step_forward(a), (false, view(0, 0, -1, Cardinal::North)));
    let b_exit = view(1, 10, 10, Cardinal::South);
    assert_eq!(g.step_forward(b_exit), (false, view(1, 10, 11, Cardinal::South)));
}

/// Adding a portal whose seam overlaps an existing portal's cells evicts
/// the earlier portal entirely.
#[test]
fn overlapping_add_evicts_prior_portal() {
    let mut g = Portals::new();
    let first = AreaPortal {
        src: view(0, 0, 0, Cardinal::North),
        dst: view(1, 10, 10, Cardinal::North),
        size: 1,
    };
    g.add_area_portal(first);
    assert_eq!(g.step_forward(view(0, 0, 0, Cardinal::North)), (true, view(1, 10, 10, Cardinal::North)));

    // same sensing cell, different destination: the first portal must go
    let second = AreaPortal {
        src: view(0, 0, 0, Cardinal::North),
        dst: view(2, -30, 4, Cardinal::East),
        size: 1,
    };
    g.add_area_portal(second);
    assert_eq!(
        g.step_forward(view(0, 0, 0, Cardinal::North)),
        (true, view(2, -30, 4, Cardinal::East))
    );
    // the first portal's reverse seam is gone too
    assert_eq!(
        g.step_forward(view(1, 10, 10, Cardinal::South)),
        (false, view(1, 10, 11, Cardinal::South))
    );
}

/// The diagonal decomposition that crosses more portals wins: here the
/// forward-then-right order crosses two seams and the right-then-forward
/// order crosses none.
#[test]
fn diagonal_prefers_more_portal_crossings() {
    let mut g = Portals::new();
    // first hop: from room 0 into room 1
    g.add_area_portal(AreaPortal {
        src: view(0, 0, 0, Cardinal::North),
        dst: view(1, 10, 10, Cardinal::North),
        size: 1,
    });
    // second hop: sideways out of the first hop's arrival, into room 2
    g.add_area_portal(AreaPortal {
        src: view(1, 10, 10, Cardinal::East),
        dst: view(2, 20, 20, Cardinal::North),
        size: 1,
    });

    let start = view(0, 0, 0, Cardinal::North);
    // forward then right: portal, then portal (2 crossings);
    // right then forward: plain cells (0 crossings)
    let (crossed, out) = g.step_directional_2(start, Egocentric::Forward, Egocentric::Right);
    assert!(crossed);
    assert_eq!(out, view(2, 20, 20, Cardinal::West));
}

/// `step_offset` classifies unit offsets: zero stays put, orthogonal
/// offsets step once, diagonal offsets take the two-step route.
#[test]
fn step_offset_classifies_unit_moves() {
    let g = Portals::new();
    let start = view(0, 0, 0, Cardinal::North);
    assert_eq!(
        g.step_offset(start, egosphere::EgoVec { x: 0, y: 0 }),
        (false, start)
    );
    assert_eq!(
        g.step_offset(start, egosphere::EgoVec { x: 0, y: -1 }),
        (false, view(0, 0, -1, Cardinal::North))
    );
    assert_eq!(
        g.step_offset(start, egosphere::EgoVec { x: 1, y: 0 }),
        (false, view(0, 1, 0, Cardinal::North))
    );
    assert_eq!(
        g.step_offset(start, egosphere::EgoVec { x: -1, y: 1 }),
        (false, view(0, -1, 1, Cardinal::North))
    );
}
