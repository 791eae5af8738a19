use vstd::prelude::*;

verus! {

/// The class of an ability: what the player asks for when activating.
#[derive(Clone, Copy, Debug, PartialEq, Eq, Structural)]
pub enum AbilityClass {
    Normal,
    Special,
}

/// An ability a player can equip.
#[derive(Clone, Copy, Debug, PartialEq, Eq, Structural)]
pub enum Ability {
    Slash,
}

/// The class that each ability belongs to.
pub open spec fn ability_class(a: Ability) -> AbilityClass {
    match a {
        Ability::Slash => AbilityClass::Normal,
    }
}

impl Ability {
    /// The class of this ability.
    pub fn cl(&self) -> (c: AbilityClass)
        ensures
            c == ability_class(*self),
    {
        match self {
            Ability::Slash => AbilityClass::Normal,
        }
    }
}

} // verus!
