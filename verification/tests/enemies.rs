use auto_claw::enemies::{plan_enemy_updates, EnemyUpdate};
use auto_claw::wire::{PlayerFrame, PlayerState};

fn from(id: u8) -> PlayerFrame {
    PlayerFrame { remote_id: id, state: PlayerState::Idle, x: 1, y: 2, vx: 3, vy: 4 }
}

#[test]
fn own_updates_are_passed_over() {
    assert_eq!(plan_enemy_updates(2, &vec![from(2)], 0), Some((vec![], 0)));
}

#[test]
fn first_updates_add_enemies() {
    let plan = plan_enemy_updates(0, &vec![from(1), from(2), from(1)], 0).unwrap();
    assert_eq!(
        plan.0,
        vec![
            EnemyUpdate { index: 0, spawn: true, frame: from(1) },
            EnemyUpdate { index: 1, spawn: true, frame: from(2) },
            EnemyUpdate { index: 0, spawn: false, frame: from(1) },
        ]
    );
    assert_eq!(plan.1, 2);
}

#[test]
fn ids_below_own_keep_their_index() {
    let plan = plan_enemy_updates(3, &vec![from(0), from(1), from(2), from(4)], 0).unwrap();
    let indices: Vec<u8> = plan.0.iter().map(|u| u.index).collect();
    assert_eq!(indices, vec![0, 1, 2, 3]);
    assert!(plan.0.iter().all(|u| u.spawn));
    assert_eq!(plan.1, 4);
}

#[test]
fn update_past_the_next_enemy_is_refused() {
    assert_eq!(plan_enemy_updates(0, &vec![from(5)], 0), None);
}
