use vstd::prelude::*;
use crate::lanes::select;

verus! {

/// The faction an ally or adversary belongs to.
#[derive(PartialEq, Eq, Hash, Clone, Copy, Debug, Structural)]
pub enum Faction {
    Might,
    Magic,
    Guile,
}

/// The guild of an ally.
#[derive(PartialEq, Eq, Hash, Clone, Copy, Debug, Structural)]
pub enum Guild {
    Warrior,
    Barbarian,
    Guardian,
    Priest,
    WitchDoctor,
    Herbalist,
    Rogue,
    Hunter,
    Assasin,
    Mage,
    Summoner,
    Elementalist,
}

/// The kind of an error met while running the game loop.
#[derive(PartialEq, Eq, Hash, Clone, Copy, Debug, Structural)]
pub enum ExecutionErrorType {
    ExecutionBaseLoop,
}

/// An error met while running the game loop.
#[derive(PartialEq, Eq, Hash, Clone, Debug)]
pub struct ExecutionError {
    pub value: String,
    pub kind: ExecutionErrorType,
}

/// What a party of allies is busy with.
#[derive(PartialEq, Eq, Hash, Clone, Copy, Debug, Structural)]
pub enum AllyPartyStatusType {
    Working,
    Researching,
    Battling,
    Resting,
    Drinking,
    Exploring,
    Idle,
}

/// Who leads a party.
#[derive(PartialEq, Eq, Hash, Clone, Copy, Debug, Structural)]
pub enum PartyType {
    Player,
}

/// The kind of an adversary.
#[derive(PartialEq, Eq, Hash, Clone, Copy, Debug, Structural)]
pub enum AdversaryType {
    Enemy,
}

/// An adversary of a zone.
#[derive(PartialEq, Eq, Hash, Clone, Debug)]
pub struct Adversary {
    pub name: String,
    pub kind: AdversaryType,
    pub faction: Faction,
}

/// The kind of a guide.
#[derive(PartialEq, Eq, Hash, Clone, Copy, Debug, Structural)]
pub enum GuideType {
    Researcher,
}

/// A guide of a zone.
#[derive(PartialEq, Eq, Hash, Clone, Debug)]
pub struct Guide {
    pub value: String,
    pub kind: GuideType,
}

/// Where one ally's task stands.
#[derive(PartialEq, Eq, Hash, Clone, Copy, Debug, Structural)]
pub enum ProgressStateType {
    Idle,
    Processing,
    Complete,
    Void,
}

/// Every status but idling keeps a party busy.
pub open spec fn is_active_spec(kind: AllyPartyStatusType) -> bool {
    kind != AllyPartyStatusType::Idle
}

/// Whether a party with this status is busy.
pub fn is_active(kind: AllyPartyStatusType) -> (r: bool)
    ensures
        r == is_active_spec(kind),
        r == (kind != AllyPartyStatusType::Idle),
{
    match kind {
        AllyPartyStatusType::Idle => false,
        _ => true,
    }
}

/// Where each of the four ally lanes of a party stands after one step:
/// in a busy party, an assigned ally below its completion keeps
/// processing, an assigned ally at or past it is complete, and an empty
/// lane is void; in an idle party every lane idles.
pub open spec fn lane_state_spec(active: bool, below: bool, assigned: bool) -> ProgressStateType {
    if !active {
        ProgressStateType::Idle
    } else if below && assigned {
        ProgressStateType::Processing
    } else if assigned {
        ProgressStateType::Complete
    } else {
        ProgressStateType::Void
    }
}

/// The lane states of a party after one step, from whether its status is
/// busy, which lanes are below their completion, and which lanes hold an
/// ally; and the lanes that may progress (below completion and assigned).
pub fn lane_states(active: bool, below: [bool; 4], assigned: [bool; 4]) -> (r: (
    [ProgressStateType; 4],
    [bool; 4],
))
    ensures
        forall|i: int|
            0 <= i < 4 ==> #[trigger] r.0@[i] == lane_state_spec(active, below@[i], assigned@[i]),
        forall|i: int| 0 <= i < 4 ==> #[trigger] r.1@[i] == (below@[i] && assigned@[i]),
{
    let can_progress = [
        below[0] && assigned[0],
        below[1] && assigned[1],
        below[2] && assigned[2],
        below[3] && assigned[3],
    ];
    if active {
        let processing = [ProgressStateType::Processing; 4];
        let complete = [ProgressStateType::Complete; 4];
        let void = [ProgressStateType::Void; 4];
        let done = select(assigned, complete, void);
        let states = select(can_progress, processing, done);
        (states, can_progress)
    } else {
        ([ProgressStateType::Idle; 4], can_progress)
    }
}

/// The lanes where a step grants a special bonus: the lane may progress,
/// its special progress is below its cap, and its roll came under the
/// chance.
pub fn special_lanes(can_progress: [bool; 4], special_below: [bool; 4], rolled: [bool; 4]) -> (r: [bool; 4])
    ensures
        forall|i: int|
            0 <= i < 4 ==> #[trigger] r@[i] == (can_progress@[i] && special_below@[i]
                && rolled@[i]),
{
    [
        can_progress[0] && special_below[0] && rolled[0],
        can_progress[1] && special_below[1] && rolled[1],
        can_progress[2] && special_below[2] && rolled[2],
        can_progress[3] && special_below[3] && rolled[3],
    ]
}

/// An ally lane that is not assigned never processes or completes, and a
/// lane of an idle party only idles.
pub proof fn law_unassigned_lane_never_completes(active: bool, below: bool)
    ensures
        lane_state_spec(active, below, false) != ProgressStateType::Processing,
        lane_state_spec(active, below, false) != ProgressStateType::Complete,
        lane_state_spec(false, below, true) == ProgressStateType::Idle,
{
}


/// Only an idle party rests: working, researching, battling, resting,
/// drinking and exploring parties are all busy, so an assigned ally below
/// its completion keeps processing in them, and one at or past it is
/// complete.
pub proof fn law_only_idle_rests(kind: AllyPartyStatusType)
    ensures
        is_active_spec(kind) <==> kind != AllyPartyStatusType::Idle,
        is_active_spec(AllyPartyStatusType::Working),
        is_active_spec(AllyPartyStatusType::Researching),
        is_active_spec(AllyPartyStatusType::Battling),
        is_active_spec(AllyPartyStatusType::Resting),
        is_active_spec(AllyPartyStatusType::Drinking),
        is_active_spec(AllyPartyStatusType::Exploring),
        !is_active_spec(AllyPartyStatusType::Idle),
        kind != AllyPartyStatusType::Idle ==> lane_state_spec(is_active_spec(kind), true, true)
            == ProgressStateType::Processing,
        kind != AllyPartyStatusType::Idle ==> lane_state_spec(is_active_spec(kind), false, true)
            == ProgressStateType::Complete,
{
}

} // verus!
