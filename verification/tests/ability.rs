use auto_claw::ability::{Ability, AbilityClass};

#[test]
fn slash_is_normal() {
    assert_eq!(Ability::Slash.cl(), AbilityClass::Normal);
}
