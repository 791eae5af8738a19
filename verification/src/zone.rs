use vstd::prelude::*;
use crate::party::{AllyPartyStatusType, ProgressStateType};

verus! {

/// What activating an ally in a zone does to the statuses of the wanted
/// kind.
#[derive(PartialEq, Eq, Clone, Copy, Debug, Structural)]
pub enum Activation {
    /// The ally already has a status of that kind: nothing changes.
    Unchanged,
    /// The ally is pointed at the status with this index.
    Join(usize),
    /// A new status is opened with the ally in its first lane, and the
    /// ally leaves the lane it held.
    Open,
}

/// The last index at which `s` holds `true`, or -1.
pub open spec fn last_true(s: Seq<bool>) -> int
    decreases s.len(),
{
    if s.len() == 0 {
        -1
    } else if s.last() {
        s.len() - 1
    } else {
        last_true(s.drop_last())
    }
}

/// The activation of an ally whose status is `current` (none where it has
/// none) into a status of kind `start`, where `assigned_any` tells, for
/// each status of that kind in order, whether any of its lanes holds an
/// ally: the last such status is joined, and a new one opened where there
/// is none.
pub open spec fn activation_spec(
    current: Option<AllyPartyStatusType>,
    start: AllyPartyStatusType,
    assigned_any: Seq<bool>,
) -> Activation {
    if current == Some(start) {
        Activation::Unchanged
    } else if last_true(assigned_any) >= 0 {
        Activation::Join(last_true(assigned_any) as usize)
    } else {
        Activation::Open
    }
}

proof fn lemma_last_true(s: Seq<bool>)
    ensures
        -1 <= last_true(s) < s.len(),
        last_true(s) >= 0 ==> s[last_true(s)],
        forall|j: int| last_true(s) < j < s.len() ==> !s[j],
    decreases s.len(),
{
    if s.len() > 0 {
        let d = s.drop_last();
        lemma_last_true(d);
        assert forall|j: int| 0 <= j < d.len() implies d[j] == s[j] by {}
    }
}

/// Decides what activating an ally does.
pub fn activation(
    current: Option<AllyPartyStatusType>,
    start: AllyPartyStatusType,
    assigned_any: &Vec<bool>,
) -> (r: Activation)
    ensures
        r == activation_spec(current, start, assigned_any@),
        r matches Activation::Join(i) ==> i < assigned_any@.len() && assigned_any@[i as int],
{
    if let Some(kind) = current {
        if kind == start {
            return Activation::Unchanged;
        }
    }
    proof {
        lemma_last_true(assigned_any@);
    }
    let mut i: usize = assigned_any.len();
    while i > 0
        invariant
            i <= assigned_any@.len(),
            forall|j: int| i <= j < assigned_any@.len() ==> !assigned_any@[j],
            current != Some(start),
            -1 <= last_true(assigned_any@) < assigned_any@.len(),
            last_true(assigned_any@) >= 0 ==> assigned_any@[last_true(assigned_any@)],
            forall|j: int| last_true(assigned_any@) < j < assigned_any@.len() ==> !assigned_any@[j],
        decreases i,
    {
        if assigned_any[i - 1] {
            assert(last_true(assigned_any@) == i - 1) by {
                if last_true(assigned_any@) < i - 1 {
                    assert(!assigned_any@[i - 1]);
                }
            }
            return Activation::Join(i - 1);
        }
        i = i - 1;
    }
    Activation::Open
}

/// The first lane of a status that holds the ally `ally`, or none.
pub open spec fn lane_of_spec(refs: Seq<Option<u32>>, ally: u32) -> Option<usize> {
    if refs[0] == Some(ally) {
        Some(0usize)
    } else if refs[1] == Some(ally) {
        Some(1usize)
    } else if refs[2] == Some(ally) {
        Some(2usize)
    } else if refs[3] == Some(ally) {
        Some(3usize)
    } else {
        None
    }
}

/// The lane an ally leaves when it is deactivated: the first that holds it.
pub fn lane_of(refs: &[Option<u32>; 4], ally: u32) -> (r: Option<usize>)
    ensures
        r == lane_of_spec(refs@, ally),
{
    let mut i: usize = 0;
    while i < 4
        invariant
            0 <= i <= 4,
            refs@.len() == 4,
            forall|j: int| 0 <= j < i ==> refs@[j] != Some(ally),
        decreases 4 - i,
    {
        if refs[i] == Some(ally) {
            return Some(i);
        }
        i = i + 1;
    }
    None
}

/// The lanes and allies of a status opened for one ally: it holds the
/// first lane, the others are free.
pub fn opening_lanes(ally: u32) -> (r: ([bool; 4], [Option<u32>; 4]))
    ensures
        r.0@ == seq![true, false, false, false],
        r.1@ == seq![Some(ally), None, None, None],
{
    let assigned = [true, false, false, false];
    let refs = [Some(ally), None, None, None];
    assert(assigned@ =~= seq![true, false, false, false]);
    assert(refs@ =~= seq![Some(ally), None, None, None]);
    (assigned, refs)
}

/// The lanes, in order, whose task came to completion in a step.
pub open spec fn completed_lanes_spec(states: Seq<ProgressStateType>) -> Seq<usize> {
    Seq::new(4, |i: int| i as usize).filter(|i: usize| states[i as int] == ProgressStateType::Complete)
}

/// The lanes whose task is complete, in order; their allies are then
/// deactivated.
pub fn completed_lanes(states: &[ProgressStateType; 4]) -> (r: Vec<usize>)
    ensures
        r@ == completed_lanes_spec(states@),
{
    let ghost all = Seq::new(4, |i: int| i as usize);
    let ghost keep = |i: usize| states@[i as int] == ProgressStateType::Complete;
    let mut r: Vec<usize> = Vec::new();
    let mut i: usize = 0;
    while i < 4
        invariant
            0 <= i <= 4,
            states@.len() == 4,
            all == Seq::new(4, |i: int| i as usize),
            keep == (|i: usize| states@[i as int] == ProgressStateType::Complete),
            r@ == all.take(i as int).filter(keep),
        decreases 4 - i,
    {
        assert(all.take(i + 1).drop_last() =~= all.take(i as int));
        reveal(Seq::filter);
        if states[i] == ProgressStateType::Complete {
            r.push(i);
        }
        i = i + 1;
    }
    assert(all.take(4) =~= all);
    r
}

} // verus!
