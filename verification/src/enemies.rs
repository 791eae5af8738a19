use vstd::prelude::*;
use crate::signal::{needs_new_enemy, needs_new_enemy_spec, remote_index, remote_index_spec};
use crate::wire::PlayerFrame;

verus! {

/// What the game does with one received player update: the index of the
/// enemy player it goes to, whether a new enemy is added first, and the
/// update.
#[derive(PartialEq, Eq, Clone, Copy, Debug, Structural)]
pub struct EnemyUpdate {
    pub index: u8,
    pub spawn: bool,
    pub frame: PlayerFrame,
}

/// The updates planned so far and the number of enemies after them, or
/// `None` where an update goes to an enemy that is not there even after
/// one is added (the game panics there).
pub open spec fn plan_step(acc: Option<(Seq<EnemyUpdate>, nat)>, peer_id: u8, f: PlayerFrame) -> Option<
    (Seq<EnemyUpdate>, nat),
> {
    match acc {
        None => None,
        Some((ups, count)) => match remote_index_spec(f.remote_id, peer_id) {
            None => Some((ups, count)),
            Some(i) => {
                let spawn = needs_new_enemy_spec(count as usize, i);
                let count2: nat = if spawn { count + 1 } else { count };
                if i < count2 {
                    Some((ups.push(EnemyUpdate { index: i, spawn, frame: f }), count2))
                } else {
                    None
                }
            },
        },
    }
}

/// The plan for a run of updates, from `count` enemies.
pub open spec fn plan_spec(peer_id: u8, frames: Seq<PlayerFrame>, count: nat) -> Option<
    (Seq<EnemyUpdate>, nat),
>
    decreases frames.len(),
{
    if frames.len() == 0 {
        Some((Seq::empty(), count))
    } else {
        plan_step(plan_spec(peer_id, frames.drop_last(), count), peer_id, frames.last())
    }
}

proof fn lemma_plan_none_sticks(peer_id: u8, frames: Seq<PlayerFrame>, count: nat, k: int)
    requires
        0 <= k <= frames.len(),
        plan_spec(peer_id, frames.take(k), count) is None,
    ensures
        plan_spec(peer_id, frames, count) is None,
    decreases frames.len() - k,
{
    if k < frames.len() {
        assert(frames.take(k + 1).drop_last() =~= frames.take(k));
        lemma_plan_none_sticks(peer_id, frames, count, k + 1);
    } else {
        assert(frames.take(k) =~= frames);
    }
}

/// Plans what the game does with the player updates received in a turn,
/// given its own id and its number of enemy players: its own updates are
/// passed over; another player's goes to the index `remote_index` gives,
/// after adding an enemy where `needs_new_enemy` says so. `None` where an
/// update goes to an enemy that is not there, where the game panics.
pub fn plan_enemy_updates(peer_id: u8, frames: &Vec<PlayerFrame>, count: usize) -> (r: Option<
    (Vec<EnemyUpdate>, usize),
>)
    requires
        count + frames@.len() <= usize::MAX,
    ensures
        match r {
            Some((ups, n)) => plan_spec(peer_id, frames@, count as nat) == Some((ups@, n as nat)),
            None => plan_spec(peer_id, frames@, count as nat) is None,
        },
{
    let mut ups: Vec<EnemyUpdate> = Vec::new();
    let mut n: usize = count;
    let mut k: usize = 0;
    assert(frames@.take(0) =~= Seq::<PlayerFrame>::empty());
    while k < frames.len()
        invariant
            0 <= k <= frames@.len(),
            count + frames@.len() <= usize::MAX,
            n <= count + k,
            plan_spec(peer_id, frames@.take(k as int), count as nat) == Some((ups@, n as nat)),
        decreases frames@.len() - k,
    {
        let f = frames[k];
        assert(frames@.take(k + 1).drop_last() =~= frames@.take(k as int));
        assert(frames@.take(k + 1).last() == f);
        match remote_index(f.remote_id, peer_id) {
            None => {},
            Some(i) => {
                let spawn = needs_new_enemy(n, i);
                if spawn {
                    n = n + 1;
                }
                if i as usize >= n {
                    proof {
                        lemma_plan_none_sticks(peer_id, frames@, count as nat, k + 1);
                    }
                    return None;
                }
                ups.push(EnemyUpdate { index: i, spawn, frame: f });
            },
        }
        k = k + 1;
    }
    assert(frames@.take(frames@.len() as int) =~= frames@);
    Some((ups, n))
}

/// Every planned update goes to an enemy that is there once the plan is
/// carried out, and the number of enemies only grows.
pub proof fn law_plan_indices_in_range(peer_id: u8, frames: Seq<PlayerFrame>, count: nat)
    requires
        plan_spec(peer_id, frames, count) is Some,
    ensures
        ({
            let (ups, n) = plan_spec(peer_id, frames, count)->0;
            &&& count <= n
            &&& forall|j: int| 0 <= j < ups.len() ==> (#[trigger] ups[j]).index < n
        }),
    decreases frames.len(),
{
    if frames.len() > 0 {
        let prev = plan_spec(peer_id, frames.drop_last(), count);
        if prev is None {
            assert(plan_spec(peer_id, frames, count) is None);
        } else {
            law_plan_indices_in_range(peer_id, frames.drop_last(), count);
        }
    }
}

} // verus!
