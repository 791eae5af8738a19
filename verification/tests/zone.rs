use auto_claw::party::{AllyPartyStatusType, ProgressStateType};
use auto_claw::zone::{activation, completed_lanes, lane_of, opening_lanes, Activation};

#[test]
fn activation_in_same_state_changes_nothing() {
    assert_eq!(
        activation(Some(AllyPartyStatusType::Resting), AllyPartyStatusType::Resting, &vec![true]),
        Activation::Unchanged
    );
}

#[test]
fn activation_joins_last_occupied_status() {
    assert_eq!(
        activation(None, AllyPartyStatusType::Working, &vec![true, false, true, false]),
        Activation::Join(2)
    );
    assert_eq!(
        activation(Some(AllyPartyStatusType::Idle), AllyPartyStatusType::Working, &vec![true]),
        Activation::Join(0)
    );
}

#[test]
fn activation_opens_a_status() {
    assert_eq!(activation(None, AllyPartyStatusType::Working, &vec![]), Activation::Open);
    assert_eq!(
        activation(None, AllyPartyStatusType::Working, &vec![false, false]),
        Activation::Open
    );
}

#[test]
fn lanes_of_allies() {
    assert_eq!(lane_of(&[None, Some(7), Some(7), None], 7), Some(1));
    assert_eq!(lane_of(&[None, Some(7), None, Some(3)], 3), Some(3));
    assert_eq!(lane_of(&[None; 4], 3), None);
    assert_eq!(opening_lanes(5), ([true, false, false, false], [Some(5), None, None, None]));
}

#[test]
fn completed_lanes_in_order() {
    assert_eq!(
        completed_lanes(&[
            ProgressStateType::Complete,
            ProgressStateType::Processing,
            ProgressStateType::Void,
            ProgressStateType::Complete,
        ]),
        vec![0, 3]
    );
    assert_eq!(completed_lanes(&[ProgressStateType::Idle; 4]), Vec::<usize>::new());
}
