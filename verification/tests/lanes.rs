use auto_claw::lanes::{any, lane_mask, replace_lane, replace_ps_m32x4, select};

#[test]
fn masks_select_one_lane() {
    assert_eq!(lane_mask(0), [true, false, false, false]);
    assert_eq!(lane_mask(3), [false, false, false, true]);
}

#[test]
fn select_by_mask() {
    assert_eq!(select([true, false, true, false], [1, 2, 3, 4], [5, 6, 7, 8]), [1, 6, 3, 8]);
}

#[test]
fn replace_one_lane() {
    assert_eq!(replace_lane([1u16, 2, 3, 4], 9, 2), [1, 2, 9, 4]);
    assert_eq!(replace_ps_m32x4([true, true, true, true], false, 1), [true, false, true, true]);
}

#[test]
fn any_lane() {
    assert!(!any([false; 4]));
    assert!(any([false, false, false, true]));
}
