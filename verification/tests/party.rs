use auto_claw::party::{is_active, lane_states, special_lanes, AllyPartyStatusType, ProgressStateType};

#[test]
fn only_idle_is_inactive() {
    assert!(!is_active(AllyPartyStatusType::Idle));
    assert!(is_active(AllyPartyStatusType::Resting));
    assert!(is_active(AllyPartyStatusType::Working));
}

#[test]
fn busy_party_lane_states() {
    let (states, can) = lane_states(true, [true, false, true, false], [true, true, false, false]);
    assert_eq!(
        states,
        [
            ProgressStateType::Processing,
            ProgressStateType::Complete,
            ProgressStateType::Void,
            ProgressStateType::Void,
        ]
    );
    assert_eq!(can, [true, false, false, false]);
}

#[test]
fn idle_party_lanes_idle() {
    let (states, can) = lane_states(false, [true; 4], [true; 4]);
    assert_eq!(states, [ProgressStateType::Idle; 4]);
    assert_eq!(can, [true; 4]);
}

#[test]
fn special_needs_all_three() {
    assert_eq!(
        special_lanes([true, true, true, false], [true, false, true, true], [true, true, false, true]),
        [true, false, false, false]
    );
}
