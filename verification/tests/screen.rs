use auto_claw::screen::{CycleState, Dynamic, ElementDto, Screen, XStore};

#[test]
fn new_screen_takes_next_slot() {
    let mut store = XStore::new();
    assert_eq!(store.xs.len(), 256);
    let s1 = Screen::new(&mut store);
    let s2 = Screen::new(&mut store);
    assert_eq!(store.next, 2);
    assert_eq!(s1.layer[0].element[0].x, 0);
    assert_eq!(s2.layer[0].element[0].x, 1);
    assert_eq!(s1.layer[0].element.len(), 1);
    assert!(s1.layer[1].element.is_empty());
}

#[test]
fn elements_move_first_element_and_list_layer() {
    let mut store = XStore::new();
    let _first = Screen::new(&mut store);
    let screen = Screen::new(&mut store);
    store.xs[1] = [0, 65535, 7, 1];
    let dtos = screen.elements(0, &mut store);
    assert_eq!(dtos, vec![ElementDto { s: 1, t: 1, x: 1 }]);
    assert_eq!(store.xs[1], [2, 1, 9, 3]);
    assert_eq!(store.xs[0], [0, 0, 0, 0]);
}

#[test]
fn dynamic_move_adds_to_one_lane() {
    let mut d = Dynamic { t: vec![1], c: CycleState::Cycle, dx: vec![[0; 4], [0; 4]], dy: vec![[0; 4], [0; 4]] };
    d.mv(17, 3, 4);
    d.mv(17, 1, 0);
    assert_eq!(d.dx, vec![[0; 4], [0, 4, 0, 0]]);
    assert_eq!(d.dy, vec![[0; 4], [0, 4, 0, 0]]);
    assert_eq!(d.c, CycleState::Cycle);
}
