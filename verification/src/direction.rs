use vstd::prelude::*;

verus! {

/// What occupies a place on the board.
#[derive(PartialEq, Eq, Hash, Clone, Copy, Debug, Structural)]
pub enum EntityType {
    Wall,
    Player,
    Monster,
    Particle,
    Nothing,
}

/// A compass direction.
#[derive(PartialEq, Eq, Hash, Clone, Copy, Debug, Structural)]
pub enum Direction {
    East,
    West,
    North,
    South,
}

/// A grid position, one unsigned coordinate per axis.
#[derive(PartialEq, Eq, Hash, Clone, Copy, Debug, Structural)]
pub struct GridPos {
    pub x: u32,
    pub y: u32,
}

/// `v` taken modulo 2^32: what a lane of an unsigned 32-bit vector holds
/// after an addition or subtraction.
pub open spec fn wrap32(v: int) -> u32 {
    (v % 0x1_0000_0000) as u32
}

/// The clockwise turn.
pub open spec fn turn_dex_spec(d: Direction) -> Direction {
    match d {
        Direction::East => Direction::South,
        Direction::South => Direction::West,
        Direction::West => Direction::North,
        Direction::North => Direction::East,
    }
}

/// The counter-clockwise turn.
pub open spec fn turn_sin_spec(d: Direction) -> Direction {
    match d {
        Direction::East => Direction::North,
        Direction::South => Direction::East,
        Direction::West => Direction::South,
        Direction::North => Direction::West,
    }
}

/// The letter a direction is written as.
pub open spec fn direction_letter(d: Direction) -> char {
    match d {
        Direction::North => 'N',
        Direction::East => 'E',
        Direction::West => 'W',
        Direction::South => 'S',
    }
}

/// The direction a letter stands for; any other letter is East.
pub open spec fn direction_of_letter(c: char) -> Direction {
    if c == 'N' {
        Direction::North
    } else if c == 'W' {
        Direction::West
    } else if c == 'S' {
        Direction::South
    } else {
        Direction::East
    }
}

/// Stepping back from `xy` against the direction, on a two-lane position
/// whose lanes wrap (the second lane moves by 32 or 132); `None` where the
/// board edge stops it.
pub open spec fn retreat_spec(d: Direction, xy: GridPos, width: u32, height: u32) -> Option<GridPos> {
    match d {
        Direction::East => if xy.x > 0 {
            Some(GridPos { x: (xy.x - 1) as u32, y: wrap32(xy.y - 32) })
        } else {
            None
        },
        Direction::West => if xy.x + 1 < width {
            Some(GridPos { x: (xy.x + 1) as u32, y: wrap32(xy.y + 32) })
        } else {
            None
        },
        Direction::South => if xy.y + 1 < height {
            Some(GridPos { x: xy.x, y: wrap32(xy.y + 132) })
        } else {
            None
        },
        Direction::North => if xy.y < height {
            Some(GridPos { x: xy.x, y: wrap32(xy.y - 132) })
        } else {
            None
        },
    }
}

impl Direction {
    /// Steps back from `xy` against this direction, on a board of the given
    /// size; `Err` where the edge stops it.
    pub fn retreat(&self, xy: GridPos, width: u32, height: u32) -> (r: Result<GridPos, ()>)
        requires
            *self == Direction::West ==> xy.x < u32::MAX,
            *self == Direction::South ==> xy.y < u32::MAX,
        ensures
            match retreat_spec(*self, xy, width, height) {
                Some(p) => r == Ok::<GridPos, ()>(p),
                None => r is Err,
            },
    {
        match self {
            Direction::East => {
                if xy.x > 0 {
                    return Ok(GridPos { x: xy.x - 1, y: xy.y.wrapping_sub(32) });
                }
            },
            Direction::West => {
                if xy.x + 1 < width {
                    return Ok(GridPos { x: xy.x + 1, y: xy.y.wrapping_add(32) });
                }
            },
            Direction::South => {
                if xy.y + 1 < height {
                    return Ok(GridPos { x: xy.x, y: xy.y.wrapping_add(132) });
                }
            },
            Direction::North => {
                if xy.y < height {
                    return Ok(GridPos { x: xy.x, y: xy.y.wrapping_sub(132) });
                }
            },
        }
        Err(())
    }

    /// The clockwise turn.
    pub fn turn_dex(self) -> (r: Direction)
        ensures
            r == turn_dex_spec(self),
    {
        match self {
            Direction::East => Direction::South,
            Direction::South => Direction::West,
            Direction::West => Direction::North,
            Direction::North => Direction::East,
        }
    }

    /// The counter-clockwise turn.
    pub fn turn_sin(self) -> (r: Direction)
        ensures
            r == turn_sin_spec(self),
    {
        match self {
            Direction::East => Direction::North,
            Direction::South => Direction::East,
            Direction::West => Direction::South,
            Direction::North => Direction::West,
        }
    }

    /// The direction a level file letter stands for; unknown letters are East.
    pub fn from_varying(c: char) -> (r: Direction)
        ensures
            r == direction_of_letter(c),
    {
        match c {
            'N' => Direction::North,
            'E' => Direction::East,
            'W' => Direction::West,
            'S' => Direction::South,
            _ => Direction::East,
        }
    }

    /// The letter a direction is written as in a level file.
    pub fn to_varying(&self) -> (r: char)
        ensures
            r == direction_letter(*self),
            r == 'N' || r == 'E' || r == 'W' || r == 'S',
            direction_of_letter(r) == *self,
    {
        match self {
            Direction::North => 'N',
            Direction::East => 'E',
            Direction::West => 'W',
            Direction::South => 'S',
        }
    }
}

/// A colour.
#[derive(PartialEq, Eq, Hash, Clone, Copy, Debug, Structural)]
pub enum Colour {
    Red,
    Green,
    Blue,
    Purple,
}

pub open spec fn colour_letter(c: Colour) -> char {
    match c {
        Colour::Blue => 'B',
        Colour::Red => 'R',
        Colour::Green => 'G',
        Colour::Purple => 'P',
    }
}

/// The colour a letter stands for, if any.
pub open spec fn optional_colour_of_letter(c: char) -> Option<Colour> {
    if c == 'P' {
        Some(Colour::Purple)
    } else if c == 'R' {
        Some(Colour::Red)
    } else if c == 'B' {
        Some(Colour::Blue)
    } else if c == 'G' {
        Some(Colour::Green)
    } else {
        None
    }
}

/// The colour a letter stands for; any other letter is Purple.
pub open spec fn colour_of_letter(c: char) -> Colour {
    match optional_colour_of_letter(c) {
        Some(col) => col,
        None => Colour::Purple,
    }
}

/// The letter for an optional colour: `X` for none.
pub open spec fn optional_colour_letter(c: Option<Colour>) -> char {
    match c {
        Some(col) => colour_letter(col),
        None => 'X',
    }
}

impl Colour {
    /// The colour a level file letter stands for; unknown letters are Purple.
    pub fn from_varying(c: char) -> (r: Colour)
        ensures
            r == colour_of_letter(c),
    {
        match c {
            'P' => Colour::Purple,
            'R' => Colour::Red,
            'B' => Colour::Blue,
            'G' => Colour::Green,
            _ => Colour::Purple,
        }
    }

    /// The letter a colour is written as.
    pub fn to_varying(&self) -> (r: char)
        ensures
            r == colour_letter(*self),
            r == 'B' || r == 'R' || r == 'G' || r == 'P',
            r == optional_colour_letter(Some(*self)),
            colour_of_letter(r) == *self,
    {
        match self {
            Colour::Blue => 'B',
            Colour::Red => 'R',
            Colour::Green => 'G',
            Colour::Purple => 'P',
        }
    }

    /// The colour a letter stands for, or none (`X` and unknown letters).
    pub fn from_optional_varying(c: char) -> (r: Option<Colour>)
        ensures
            r == optional_colour_of_letter(c),
    {
        match c {
            'P' => Some(Colour::Purple),
            'R' => Some(Colour::Red),
            'B' => Some(Colour::Blue),
            'G' => Some(Colour::Green),
            'X' => None,
            _ => None,
        }
    }

    /// The letter for an optional colour: `X` for none.
    pub fn to_optional_varying(colour: &Option<Colour>) -> (r: char)
        ensures
            r == optional_colour_letter(*colour),
            r == 'B' || r == 'R' || r == 'G' || r == 'P' || r == 'X',
            optional_colour_of_letter(r) == *colour,
    {
        match colour {
            Some(Colour::Blue) => 'B',
            Some(Colour::Red) => 'R',
            Some(Colour::Green) => 'G',
            Some(Colour::Purple) => 'P',
            None => 'X',
        }
    }
}

/// A direction written as its letter reads back as the same direction.
pub proof fn law_direction_letter_round_trip(d: Direction)
    ensures
        direction_of_letter(direction_letter(d)) == d,
{
}

/// Turning clockwise and then counter-clockwise, or the other way round,
/// faces the way one started.
pub proof fn law_turns_undo_each_other(d: Direction)
    ensures
        turn_sin_spec(turn_dex_spec(d)) == d,
        turn_dex_spec(turn_sin_spec(d)) == d,
{
}

/// Four clockwise turns face the way one started, and no fewer do.
pub proof fn law_four_turns_return(d: Direction)
    ensures
        turn_dex_spec(turn_dex_spec(turn_dex_spec(turn_dex_spec(d)))) == d,
        turn_dex_spec(d) != d,
        turn_dex_spec(turn_dex_spec(d)) != d,
        turn_dex_spec(turn_dex_spec(turn_dex_spec(d))) != d,
{
}

/// A colour written as its letter reads back as the same colour.
pub proof fn law_colour_letter_round_trip(c: Colour)
    ensures
        colour_of_letter(colour_letter(c)) == c,
{
}

/// An optional colour written as its letter reads back the same, `None`
/// included.
pub proof fn law_optional_colour_round_trip(c: Option<Colour>)
    ensures
        optional_colour_of_letter(optional_colour_letter(c)) == c,
{
}


/// Stepping back moves one place along the direction's axis and is refused
/// exactly at the board's edge: against East from any column but the first,
/// against West onto any column before `width`, against South onto any row
/// before `height`, against North from any row below `height`; the other
/// coordinate stays.
pub proof fn law_retreat_one_step_within_board(xy: GridPos, width: u32, height: u32)
    ensures
        (retreat_spec(Direction::East, xy, width, height) is Some) == (xy.x > 0),
        (retreat_spec(Direction::West, xy, width, height) is Some) == (xy.x + 1 < width),
        (retreat_spec(Direction::South, xy, width, height) is Some) == (xy.y + 1 < height),
        (retreat_spec(Direction::North, xy, width, height) is Some) == (xy.y < height),
        retreat_spec(Direction::East, xy, width, height) matches Some(p) ==> p.x == xy.x - 1,
        retreat_spec(Direction::West, xy, width, height) matches Some(p) ==> p.x == xy.x + 1,
        retreat_spec(Direction::South, xy, width, height) matches Some(p) ==> p.x == xy.x,
        retreat_spec(Direction::North, xy, width, height) matches Some(p) ==> p.x == xy.x,
{
}

/// Each direction is written as its own capital letter, one that reading
/// names explicitly, and no two directions share a letter.
pub proof fn law_direction_letters_are_capitals(d: Direction, e: Direction)
    ensures
        direction_letter(d) == 'N' || direction_letter(d) == 'E' || direction_letter(d) == 'W'
            || direction_letter(d) == 'S',
        d != e ==> direction_letter(d) != direction_letter(e),
        direction_of_letter(direction_letter(d)) == d,
{
}

/// Each colour is written as a capital letter that reading names
/// explicitly, the same letter written for the colour when it is optional,
/// and no two colours share a letter; no colour is written as `X`.
pub proof fn law_colour_letters_are_capitals(c: Colour, e: Colour)
    ensures
        colour_letter(c) == 'B' || colour_letter(c) == 'R' || colour_letter(c) == 'G'
            || colour_letter(c) == 'P',
        colour_letter(c) == optional_colour_letter(Some(c)),
        optional_colour_letter(None) == 'X',
        c != e ==> colour_letter(c) != colour_letter(e),
        optional_colour_of_letter(colour_letter(c)) == Some(c),
{
}

} // verus!
