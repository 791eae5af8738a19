use auto_claw::registry::Registry;

fn joined(ids: &[u128]) -> Registry {
    let mut r = Registry::new();
    for id in ids {
        let index = r.next_index();
        r.join(index, *id);
    }
    r
}

#[test]
fn joined_clients_are_routed_by_index() {
    let r = joined(&[10, 20, 30]);
    assert_eq!(r.route(0), Some(10));
    assert_eq!(r.route(2), Some(30));
    assert_eq!(r.route(3), None);
    assert_eq!(r.new_client_message(), vec![0, 2, 1, 0]);
}

#[test]
fn close_renumbers_later_clients() {
    let mut r = joined(&[10, 20, 30, 40]);
    let notices = r.close(20).unwrap();
    assert_eq!(
        notices,
        vec![(10, vec![255, 1, 0]), (30, vec![255, 1, 1]), (40, vec![255, 1, 2])]
    );
    assert_eq!(r.ids, vec![10, 30, 40]);
    assert_eq!(r.route(0), Some(10));
    assert_eq!(r.route(1), Some(30));
    assert_eq!(r.route(2), Some(40));
    assert_eq!(r.route(3), None);
}

#[test]
fn last_client_leaving_keeps_its_stale_index() {
    let mut r = joined(&[10, 20]);
    let notices = r.close(20).unwrap();
    assert_eq!(notices, vec![(10, vec![255, 1, 0])]);
    assert_eq!(r.ids, vec![10]);
    assert_eq!(r.route(1), Some(20));
}

#[test]
fn unknown_client_cannot_close() {
    let mut r = joined(&[10]);
    assert_eq!(r.close(99), None);
    assert_eq!(r.ids, vec![10]);
    assert_eq!(r.route(0), Some(10));
}

#[test]
fn missing_index_cannot_close() {
    let mut r = Registry::new();
    r.join(0, 10);
    r.join(5, 20);
    assert_eq!(r.close(10), None);
    assert_eq!(r.ids, vec![10, 20]);
}
