use auto_claw::view::is_view_code;
use auto_claw::view::{Tile, View};

#[test]
fn view_titles() {
    assert_eq!(View::Town.as_text(), "Town overview");
    assert_eq!(View::Tavern.as_text(), "Tavern");
    assert_eq!(View::Battle.as_text(), "Battle");
    assert_eq!(View::Guild.as_text(), "Guild");
    assert_eq!(View::Research.as_text(), "Research");
}

#[test]
fn view_codes() {
    assert_eq!(View::from(&String::from("T")), View::Town);
    assert_eq!(View::from(&String::from("A")), View::Tavern);
    assert_eq!(View::from(&String::from("B")), View::Battle);
    assert_eq!(View::from(&String::from("G")), View::Guild);
    assert_eq!(View::from(&String::from("R")), View::Research);
}

#[test]
fn tiles() {
    assert_eq!(Tile::Empty.render(), vec![257]);
    assert_eq!(Tile::Wall.render(), vec![257, 513]);
    assert_eq!(Tile::Empty.add_wall(), Ok(Tile::Wall));
    assert_eq!(Tile::Wall.add_wall(), Err(()));
}

#[test]
fn view_code_check() {
    assert!(is_view_code(&String::from("R")));
    assert!(!is_view_code(&String::from("RR")));
    assert!(!is_view_code(&String::from("")));
    assert!(!is_view_code(&String::from("x")));
}
