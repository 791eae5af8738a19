use auto_claw::party::AllyPartyStatusType::{Battling, Resting, Working};
use auto_claw::roster::Roster;

#[test]
fn first_activation_opens_a_status() {
    let mut r: Roster<u8> = Roster::new();
    let joe = r.add_ally();
    assert_eq!(joe, 0);
    assert_eq!(r.status_of(joe), None);
    r.activate(joe, Resting, 7);
    assert_eq!(r.status_of(joe), Some((Resting, 0)));
    assert_eq!(r.status_count(Resting), 1);
    assert_eq!(r.lanes_at(Resting, 0), ([true, false, false, false], [Some(0), None, None, None]));
    assert_eq!(*r.progress_at(Resting, 0), 7);
}

#[test]
fn same_kind_changes_nothing() {
    let mut r: Roster<u8> = Roster::new();
    let joe = r.add_ally();
    r.activate(joe, Resting, 7);
    r.activate(joe, Resting, 9);
    assert_eq!(r.status_count(Resting), 1);
    assert_eq!(*r.progress_at(Resting, 0), 7);
}

#[test]
fn second_ally_joins_busy_status() {
    let mut r: Roster<u8> = Roster::new();
    let joe = r.add_ally();
    let ann = r.add_ally();
    r.activate(joe, Working, 1);
    r.activate(ann, Working, 2);
    assert_eq!(r.status_of(ann), Some((Working, 0)));
    assert_eq!(r.status_count(Working), 1);
    assert_eq!(r.lanes_at(Working, 0), ([true, false, false, false], [Some(0), None, None, None]));
}

#[test]
fn moving_frees_the_old_lane() {
    let mut r: Roster<u8> = Roster::new();
    let joe = r.add_ally();
    r.activate(joe, Working, 1);
    r.activate(joe, Battling, 2);
    assert_eq!(r.status_of(joe), Some((Battling, 0)));
    assert_eq!(r.lanes_at(Working, 0), ([false, false, false, false], [Some(0), None, None, None]));
    assert_eq!(r.lanes_at(Battling, 0).0, [true, false, false, false]);
}

#[test]
fn deactivate_frees_lane_and_status() {
    let mut r: Roster<u8> = Roster::new();
    let joe = r.add_ally();
    let ann = r.add_ally();
    r.activate(joe, Resting, 1);
    assert_eq!(r.deactivate(joe), Some((Resting, 0, 0)));
    assert_eq!(r.status_of(joe), None);
    assert_eq!(r.lanes_at(Resting, 0).0, [false; 4]);
    assert_eq!(r.deactivate(joe), None);
    r.activate(ann, Working, 3);
    r.activate(joe, Working, 4);
    assert_eq!(r.deactivate(joe), None);
    assert_eq!(r.status_of(joe), Some((Working, 0)));
    r.set_progress(Working, 0, 5);
    assert_eq!(*r.progress_at(Working, 0), 5);
}
