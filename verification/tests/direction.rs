use auto_claw::direction::{Colour, Direction, GridPos};

#[test]
fn retreat_east_steps_left() {
    let p = GridPos { x: 5, y: 100 };
    assert_eq!(Direction::East.retreat(p, 10, 10), Ok(GridPos { x: 4, y: 68 }));
}

#[test]
fn retreat_east_stops_at_left_edge() {
    assert_eq!(Direction::East.retreat(GridPos { x: 0, y: 3 }, 10, 10), Err(()));
}

#[test]
fn retreat_west_steps_right() {
    assert_eq!(
        Direction::West.retreat(GridPos { x: 5, y: 1 }, 10, 10),
        Ok(GridPos { x: 6, y: 33 })
    );
    assert_eq!(Direction::West.retreat(GridPos { x: 9, y: 1 }, 10, 10), Err(()));
}

#[test]
fn retreat_second_lane_wraps() {
    assert_eq!(
        Direction::East.retreat(GridPos { x: 1, y: 0 }, 10, 10),
        Ok(GridPos { x: 0, y: u32::MAX - 31 })
    );
    assert_eq!(
        Direction::North.retreat(GridPos { x: 1, y: 2 }, 10, 10),
        Ok(GridPos { x: 1, y: u32::MAX - 129 })
    );
}

#[test]
fn retreat_south_and_north() {
    assert_eq!(
        Direction::South.retreat(GridPos { x: 2, y: 3 }, 10, 200),
        Ok(GridPos { x: 2, y: 135 })
    );
    assert_eq!(Direction::South.retreat(GridPos { x: 2, y: 199 }, 10, 200), Err(()));
    assert_eq!(
        Direction::North.retreat(GridPos { x: 2, y: 150 }, 10, 200),
        Ok(GridPos { x: 2, y: 18 })
    );
    assert_eq!(Direction::North.retreat(GridPos { x: 2, y: 200 }, 10, 200), Err(()));
}

#[test]
fn turns() {
    assert_eq!(Direction::East.turn_dex(), Direction::South);
    assert_eq!(Direction::South.turn_dex(), Direction::West);
    assert_eq!(Direction::West.turn_dex(), Direction::North);
    assert_eq!(Direction::North.turn_dex(), Direction::East);
    assert_eq!(Direction::East.turn_sin(), Direction::North);
    assert_eq!(Direction::North.turn_sin(), Direction::West);
}

#[test]
fn turns_undo_each_other() {
    for d in [Direction::North, Direction::East, Direction::South, Direction::West] {
        assert_eq!(d.turn_dex().turn_sin(), d);
        assert_eq!(d.turn_sin().turn_dex(), d);
        assert_eq!(d.turn_dex().turn_dex().turn_dex().turn_dex(), d);
    }
}

#[test]
fn direction_letters() {
    assert_eq!(Direction::from_varying('N'), Direction::North);
    assert_eq!(Direction::from_varying('W'), Direction::West);
    assert_eq!(Direction::from_varying('S'), Direction::South);
    assert_eq!(Direction::from_varying('E'), Direction::East);
    assert_eq!(Direction::from_varying('q'), Direction::East);
    for d in [Direction::North, Direction::East, Direction::South, Direction::West] {
        assert_eq!(Direction::from_varying(d.to_varying()), d);
    }
}

#[test]
fn colour_letters() {
    assert_eq!(Colour::from_varying('B'), Colour::Blue);
    assert_eq!(Colour::from_varying('R'), Colour::Red);
    assert_eq!(Colour::from_varying('G'), Colour::Green);
    assert_eq!(Colour::from_varying('P'), Colour::Purple);
    for c in [Colour::Blue, Colour::Red, Colour::Green, Colour::Purple] {
        assert_eq!(Colour::from_varying(c.to_varying()), c);
    }
}

#[test]
fn optional_colour_letters() {
    assert_eq!(Colour::from_optional_varying('X'), None);
    assert_eq!(Colour::from_optional_varying('G'), Some(Colour::Green));
    assert_eq!(Colour::to_optional_varying(&None), 'X');
    assert_eq!(Colour::to_optional_varying(&Some(Colour::Purple)), 'P');
    for c in [None, Some(Colour::Blue), Some(Colour::Red), Some(Colour::Green), Some(Colour::Purple)] {
        assert_eq!(Colour::from_optional_varying(Colour::to_optional_varying(&c)), c);
    }
}
