use egosphere::Cardinal;
use egosphere::Egocentric;
use egosphere::EgoVec;
use egosphere::GlobalVec;

#[test]
fn it_works() {
    assert_eq!(2 + 2, 4);
}

#[test]
fn cardinal_right_four_times_is_identity() {
    for d in [Cardinal::North, Cardinal::East, Cardinal::South, Cardinal::West] {
        assert_eq!(d.right().right().right().right(), d);
    }
}

#[test]
fn cardinal_reverse_twice_is_identity() {
    for d in [Cardinal::North, Cardinal::East, Cardinal::South, Cardinal::West] {
        assert_eq!(d.reverse().reverse(), d);
        assert_eq!(d.left().right(), d);
    }
}

#[test]
fn cardinal_rotated_forward_is_identity() {
    for d in [Cardinal::North, Cardinal::East, Cardinal::South, Cardinal::West] {
        assert_eq!(d.rotated(Egocentric::Forward), d);
        assert_eq!(d.rotated(Egocentric::Right), d.right());
        assert_eq!(d.rotated(Egocentric::Backward), d.reverse());
        assert_eq!(d.rotated(Egocentric::Left), d.left());
    }
}

#[test]
fn egocentric_group_laws() {
    let dirs = [
        Egocentric::Forward,
        Egocentric::Right,
        Egocentric::Backward,
        Egocentric::Left,
    ];
    for d in dirs {
        assert_eq!(d.right().right().right().right(), d);
        assert_eq!(d.reverse().reverse(), d);
        assert_eq!(d.rotated(Egocentric::Forward), d);
        for e in dirs {
            assert_eq!(d.rotated(e).rotated(e.undo()), d);
        }
    }
}

#[test]
fn cardinal_rotate_vec_quarter_turns() {
    let v = GlobalVec { x: 3, y: -2 };
    assert_eq!(Cardinal::North.rotate_vec(v), GlobalVec { x: 3, y: -2 });
    assert_eq!(Cardinal::East.rotate_vec(v), GlobalVec { x: 2, y: 3 });
    assert_eq!(Cardinal::South.rotate_vec(v), GlobalVec { x: -3, y: 2 });
    assert_eq!(Cardinal::West.rotate_vec(v), GlobalVec { x: -2, y: -3 });
}

#[test]
fn cardinal_offsets_point_the_right_way() {
    assert_eq!(Cardinal::North.offset(), GlobalVec { x: 0, y: -1 });
    assert_eq!(Cardinal::East.offset(), GlobalVec { x: 1, y: 0 });
    assert_eq!(Cardinal::South.offset(), GlobalVec { x: 0, y: 1 });
    assert_eq!(Cardinal::West.offset(), GlobalVec { x: -1, y: 0 });
    assert_eq!(Cardinal::East.offset_by(5), GlobalVec { x: 5, y: 0 });
    assert_eq!(Cardinal::North.offset_by(0), GlobalVec { x: 0, y: 0 });
}

#[test]
fn egocentric_offsets_point_the_right_way() {
    assert_eq!(Egocentric::Forward.offset(), EgoVec { x: 0, y: -1 });
    assert_eq!(Egocentric::Right.offset(), EgoVec { x: 1, y: 0 });
    assert_eq!(Egocentric::Backward.offset(), EgoVec { x: 0, y: 1 });
    assert_eq!(Egocentric::Left.offset(), EgoVec { x: -1, y: 0 });
    assert_eq!(Egocentric::Left.offset_by(3), EgoVec { x: -3, y: 0 });
}
