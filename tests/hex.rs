use hexalgo::hex::{Angle, Coord, Dir};

#[test]
fn turning_left_and_right() {
    assert_eq!(Dir::XZ.turn(Angle::Left), Dir::YZ);
    assert_eq!(Dir::XZ.turn(Angle::Right), Dir::XY);
    assert_eq!(Dir::YX.turn(Angle::Right), Dir::YZ);
    assert_eq!(Dir::YZ.turn(Angle::Left), Dir::YX);
    assert_eq!(Dir::ZY.turn(Angle::Back), Dir::YZ);
    assert_eq!(Dir::ZX.turn(Angle::Forward), Dir::ZX);
}

#[test]
fn stepping_to_neighbours() {
    let o = Coord { x: 3, y: -2 };
    assert_eq!(o.step(Dir::YZ), Some(Coord { x: 3, y: -1 }));
    assert_eq!(o.step(Dir::XZ), Some(Coord { x: 4, y: -2 }));
    assert_eq!(o.step(Dir::XY), Some(Coord { x: 4, y: -3 }));
    assert_eq!(o.step(Dir::ZY), Some(Coord { x: 3, y: -3 }));
    assert_eq!(o.step(Dir::ZX), Some(Coord { x: 2, y: -2 }));
    assert_eq!(o.step(Dir::YX), Some(Coord { x: 2, y: -1 }));
}

#[test]
fn stepping_off_the_grid() {
    let edge = Coord { x: i32::MAX, y: i32::MIN };
    assert_eq!(edge.step(Dir::XZ), None);
    assert_eq!(edge.step(Dir::ZY), None);
    assert_eq!(edge.step(Dir::ZX), Some(Coord { x: i32::MAX - 1, y: i32::MIN }));
}

#[test]
fn direction_indices_round_trip() {
    for i in 0..6u8 {
        assert_eq!(Dir::from_index(i).to_index(), i);
    }
    assert_eq!(Angle::Left.to_index(), 5);
}
