use auto_claw::board::Board;
use auto_claw::view::View;

#[test]
fn board_views() {
    let mut b: Board<u32> = Board::empty();
    assert_eq!(*b.view(), View::Town);
    b.change_view(View::Guild);
    assert_eq!(*b.view(), View::Guild);
    let c: Board<u32> = Board::new(View::Battle);
    assert_eq!(*c.view(), View::Battle);
}

#[test]
fn board_text_has_rule() {
    let b: Board<u32> = Board::new(View::Tavern);
    assert_eq!(
        b.as_text(),
        format!("Tavern{}", "=".repeat(51))
    );
}

#[test]
fn add_zone_keeps_view() {
    let mut b: Board<u32> = Board::new(View::Tavern);
    b.add_zone(View::Town, 1);
    b.add_zone(View::Town, 2);
    b.add_zone(View::Guild, 3);
    assert_eq!(*b.view(), View::Tavern);
}

#[test]
fn zones_change_in_place() {
    let mut b: Board<u32> = Board::new(View::Tavern);
    b.add_zone(View::Town, 1);
    b.add_zone(View::Guild, 3);
    b.add_zone(View::Town, 2);
    assert_eq!(b.zone_count(), 2);
    *b.zone_mut(0) += 10;
    assert_eq!(*b.zone_mut(0), 12);
    assert_eq!(*b.zone_mut(1), 3);
}
