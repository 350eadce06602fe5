use egosphere::AreaPortal;
use egosphere::BlockList;
use egosphere::Cardinal;
use egosphere::EgoPoint;
use egosphere::EgoRect;
use egosphere::Egosphere;
use egosphere::GlobalPoint;
use egosphere::GlobalPos;
use egosphere::GlobalView;
use egosphere::NeverBlocked;
use egosphere::Portals;
use egosphere::RoomId;
use egosphere::Viewport;

fn view(room: u64, x: isize, y: isize, c: Cardinal) -> GlobalView {
    GlobalView { r: RoomId(room), x: GlobalPos { x, y }, c }
}

fn point(room: u64, x: isize, y: isize) -> GlobalPoint {
    GlobalPoint { r: RoomId(room), x: GlobalPos { x, y } }
}

fn centered_window(half: isize, observer: GlobalView) -> Viewport {
    Viewport {
        rect: EgoRect { x: -half, y: -half, w: 2 * half + 1, h: 2 * half + 1 },
        observer_in_rect: EgoPoint { x: 0, y: 0 },
        observer,
    }
}

/// A 3x3 window centered on the observer, no portals, nothing blocked:
/// the center resolves to the observer's pose and the cell ahead to one
/// forward step.
#[test]
fn three_by_three_open_room() {
    let mut ego = Egosphere::new(false);
    let portals = Portals::new();
    let observer = view(0, 0, 0, Cardinal::North);
    ego.calculate(centered_window(1, observer), &portals, &NeverBlocked);

    assert_eq!(ego.at(EgoPoint { x: 0, y: 0 }), Some(observer));
    assert_eq!(
        ego.at(EgoPoint { x: 0, y: -1 }),
        Some(view(0, 0, -1, Cardinal::North))
    );
    // every cell of the open window is visible and resolved
    for x in -1..=1 {
        for y in -1..=1 {
            assert!(ego.at(EgoPoint { x, y }).is_some());
        }
    }
    // outside the window there is nothing
    assert_eq!(ego.at(EgoPoint { x: 2, y: 0 }), None);
}

/// The window is egocentric: cells resolve by stepping through the
/// portal graph, so a portal directly ahead swaps the rest of the column
/// into the destination room.
#[test]
fn portal_ahead_resolves_destination_room() {
    let mut ego = Egosphere::new(true);
    let mut portals = Portals::new();
    let a = view(0, 0, 0, Cardinal::North);
    let b = view(7, 100, 100, Cardinal::North);
    portals.add_area_portal(AreaPortal { src: a, dst: b, size: 1 });
    ego.calculate(centered_window(1, a), &portals, &NeverBlocked);

    assert_eq!(ego.at(EgoPoint { x: 0, y: 0 }), Some(a));
    // one step forward goes through the seam
    assert_eq!(ego.at(EgoPoint { x: 0, y: -1 }), Some(b));
}

/// Occlusion propagates: a blocked cell resolves, but a cell only
/// reachable through it does not resolve at all (checked under
/// `fullbright`, so visibility plays no part).
#[test]
fn blocked_cells_stop_propagation() {
    let mut ego = Egosphere::new(true);
    let portals = Portals::new();
    let observer = view(0, 0, 0, Cardinal::North);
    // a 1x5 corridor ahead of the observer, walled at (0,-1)
    let vp = Viewport {
        rect: EgoRect { x: 0, y: -4, w: 1, h: 5 },
        observer_in_rect: EgoPoint { x: 0, y: 0 },
        observer,
    };
    let walls = BlockList { cells: vec![point(0, 0, -1)] };
    ego.calculate(vp, &portals, &walls);

    assert_eq!(ego.at(EgoPoint { x: 0, y: 0 }), Some(observer));
    // the wall itself resolves
    assert_eq!(
        ego.at(EgoPoint { x: 0, y: -1 }),
        Some(view(0, 0, -1, Cardinal::North))
    );
    // everything beyond it is unreachable in this window
    assert_eq!(ego.at(EgoPoint { x: 0, y: -2 }), None);
    assert_eq!(ego.at(EgoPoint { x: 0, y: -3 }), None);
    assert_eq!(ego.at(EgoPoint { x: 0, y: -4 }), None);
}

/// Visibility gating: a cell that resolved around a wall but sits in its
/// shadow answers nothing while `fullbright` is off, and answers its pose
/// for an equally configured fullbright viewer.
#[test]
fn shadowed_cell_needs_fullbright() {
    let observer = view(0, 0, 0, Cardinal::North);
    let walls = BlockList { cells: vec![point(0, 1, 0)] };
    let portals = Portals::new();

    let mut gated = Egosphere::new(false);
    gated.calculate(centered_window(3, observer), &portals, &walls);
    let mut bright = Egosphere::new(true);
    bright.calculate(centered_window(3, observer), &portals, &walls);

    // the cell two steps east hides behind the wall at one step east:
    // it resolves (the flood fill routes around the wall) but is not lit
    let shadowed = EgoPoint { x: 3, y: 0 };
    assert_eq!(gated.at(shadowed), None);
    assert_eq!(bright.at(shadowed), Some(view(0, 3, 0, Cardinal::North)));

    // in the open, both agree
    let open = EgoPoint { x: 0, y: -2 };
    assert_eq!(gated.at(open), Some(view(0, 0, -2, Cardinal::North)));
    assert_eq!(bright.at(open), Some(view(0, 0, -2, Cardinal::North)));
}

/// Determinism: recomputing the same round gives the same answer at
/// every window cell.
#[test]
fn repeated_rounds_answer_alike() {
    let observer = view(0, 2, 3, Cardinal::East);
    let mut portals = Portals::new();
    portals.add_area_portal(AreaPortal {
        src: view(0, 4, 3, Cardinal::East),
        dst: view(5, -20, 0, Cardinal::North),
        size: 2,
    });
    let walls = BlockList { cells: vec![point(0, 2, 2), point(5, -20, 1)] };
    let vp = centered_window(2, observer);

    let mut ego = Egosphere::new(false);
    ego.calculate(vp, &portals, &walls);
    let mut first: Vec<Option<GlobalView>> = Vec::new();
    for y in -2..=2 {
        for x in -2..=2 {
            first.push(ego.at(EgoPoint { x, y }));
        }
    }
    ego.calculate(vp, &portals, &walls);
    let mut second: Vec<Option<GlobalView>> = Vec::new();
    for y in -2..=2 {
        for x in -2..=2 {
            second.push(ego.at(EgoPoint { x, y }));
        }
    }
    assert_eq!(first, second);
}

/// Resizing the window between rounds re-seeds cleanly: answers reflect
/// only the latest round.
#[test]
fn window_reshape_between_rounds() {
    let observer = view(0, 0, 0, Cardinal::North);
    let portals = Portals::new();
    let mut ego = Egosphere::new(true);

    ego.calculate(centered_window(2, observer), &portals, &NeverBlocked);
    assert!(ego.at(EgoPoint { x: 2, y: 2 }).is_some());

    ego.calculate(centered_window(1, observer), &portals, &NeverBlocked);
    assert_eq!(ego.at(EgoPoint { x: 2, y: 2 }), None);
    assert_eq!(ego.at(EgoPoint { x: 1, y: 1 }), Some(view(0, 1, 1, Cardinal::North)));
}

/// Before the first round, every query answers nothing.
#[test]
fn fresh_egosphere_answers_nothing() {
    let ego = Egosphere::new(false);
    assert_eq!(ego.at(EgoPoint { x: 0, y: 0 }), None);
    assert_eq!(ego.at(EgoPoint { x: -3, y: 7 }), None);
    let bright = Egosphere::new(true);
    assert_eq!(bright.at(EgoPoint { x: 0, y: 0 }), None);
}
