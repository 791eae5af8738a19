use vstd::prelude::*;
use vstd::view::View as ModelView;

verus! {

/// A screen of the town.
#[derive(PartialEq, Eq, Hash, Clone, Copy, Debug, Structural)]
pub enum View {
    Town,
    Tavern,
    Battle,
    Guild,
    Research,
}

/// The title shown for a view.
pub open spec fn view_text(v: View) -> Seq<char> {
    match v {
        View::Town => "Town overview"@,
        View::Tavern => "Tavern"@,
        View::Battle => "Battle"@,
        View::Guild => "Guild"@,
        View::Research => "Research"@,
    }
}

/// The view a level file name stands for: `T`, `A`, `B`, `G` or `R`.
pub open spec fn view_of_code(s: Seq<char>) -> Option<View> {
    if s == seq!['T'] {
        Some(View::Town)
    } else if s == seq!['A'] {
        Some(View::Tavern)
    } else if s == seq!['B'] {
        Some(View::Battle)
    } else if s == seq!['G'] {
        Some(View::Guild)
    } else if s == seq!['R'] {
        Some(View::Research)
    } else {
        None
    }
}

/// Whether a name is the code of a view.
pub fn is_view_code(name: &String) -> (r: bool)
    ensures
        r == view_of_code(name@) is Some,
{
    let s = name.as_str();
    if s.unicode_len() != 1 {
        return false;
    }
    let c = s.get_char(0);
    assert(name@ =~= seq![c]);
    c == 'T' || c == 'A' || c == 'B' || c == 'G' || c == 'R'
}

impl View {
    /// The title shown for this view.
    pub fn as_text(&self) -> (r: &'static str)
        ensures
            r@ == view_text(*self),
    {
        match self {
            View::Town => "Town overview",
            View::Tavern => "Tavern",
            View::Battle => "Battle",
            View::Guild => "Guild",
            View::Research => "Research",
        }
    }

    /// The view a one-letter level file name stands for.
    pub fn from(name: &String) -> (r: View)
        requires
            view_of_code(name@) is Some,
        ensures
            Some(r) == view_of_code(name@),
    {
        let s = name.as_str();
        let c = s.get_char(0);
        assert(name@ =~= seq![c]);
        if c == 'T' {
            View::Town
        } else if c == 'A' {
            View::Tavern
        } else if c == 'B' {
            View::Battle
        } else if c == 'G' {
            View::Guild
        } else {
            View::Research
        }
    }
}

/// A tile of the board.
#[derive(PartialEq, Eq, Hash, Clone, Copy, Debug, Structural)]
pub enum Tile {
    Empty,
    Wall,
}

/// The image codes drawn for a tile: the ground, and a wall over it.
pub open spec fn tile_images(t: Tile) -> Seq<i32> {
    match t {
        Tile::Empty => seq![257i32],
        Tile::Wall => seq![257i32, 513i32],
    }
}

impl Tile {
    /// The image codes drawn for this tile, bottom first.
    pub fn render(&self) -> (r: Vec<i32>)
        ensures
            r@ == tile_images(*self),
    {
        let mut v: Vec<i32> = Vec::new();
        v.push(256 * 1 + 1);
        match self {
            Tile::Empty => {},
            Tile::Wall => v.push(256 * 2 + 1),
        }
        assert(v@ =~= tile_images(*self));
        v
    }

    /// A wall on this tile: only an empty tile takes one.
    pub fn add_wall(&self) -> (r: Result<Tile, ()>)
        ensures
            *self == Tile::Empty ==> r == Ok::<Tile, ()>(Tile::Wall),
            *self != Tile::Empty ==> r is Err,
    {
        match self {
            Tile::Empty => Ok(Tile::Wall),
            _ => Err(()),
        }
    }
}

} // verus!
