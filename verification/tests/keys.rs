use evogait::keys::{action_keys, is_drive_key, loop_key, motor_plan, policy_key, Press, ACTIONS_9};

#[test]
fn action_table_matches_format() {
    // FORMAT: 0 none, 1 Q, 2 W, 3 O, 4 P, 5 QW, 6 QP, 7 WO, 8 OP.
    assert_eq!(action_keys(0), [false, false, false, false]);
    assert_eq!(action_keys(1), [true, false, false, false]);
    assert_eq!(action_keys(5), [true, true, false, false]);
    assert_eq!(action_keys(7), [false, true, true, false]);
    assert_eq!(action_keys(8), [false, false, true, true]);
    for a in 0..9 {
        assert_eq!(action_keys(a), ACTIONS_9[a]);
    }
}

#[test]
fn actions_past_eight_clamp() {
    assert_eq!(action_keys(9), action_keys(8));
    assert_eq!(action_keys(1000), action_keys(8));
}

#[test]
fn opposing_keys_cancel() {
    let both = motor_plan([true, true, true, true]);
    let none = motor_plan([false, false, false, false]);
    assert_eq!(both, none);
    assert_eq!(none.thighs, Press::Neither);
    let q = motor_plan([true, false, false, true]);
    assert_eq!(q.thighs, Press::First);
    assert_eq!(q.calves, Press::Second);
    let w = motor_plan([false, true, true, false]);
    assert_eq!(w.thighs, Press::Second);
    assert_eq!(w.calves, Press::First);
}

#[test]
fn drive_keys_hold_a_thigh_key() {
    let drive: Vec<usize> = (0..9).filter(|k| is_drive_key(*k)).collect();
    assert_eq!(drive, vec![1, 2, 5, 6, 7]);
}

#[test]
fn policy_key_wraps_and_clamps() {
    let keys = [7u8, 5, 2, 7, 1, 1, 7, 7, 3, 1, 6, 200];
    assert_eq!(policy_key(&keys, 0), 7);
    assert_eq!(policy_key(&keys, 11), 8);
    assert_eq!(policy_key(&keys, 12), 7);
    assert_eq!(policy_key(&keys, 13), 5);
}

#[test]
fn loop_replay_holds_each_key() {
    let g = [0u8, 1, 2, 3, 4, 5, 6, 7, 8, 0, 1, 2];
    let seen: Vec<usize> = (0..14).map(|i| loop_key(&g, i, 6)).collect();
    assert!(seen[0..6].iter().all(|&a| a == 0));
    assert!(seen[6..12].iter().all(|&a| a == 1));
    assert_eq!(seen[12], 2);
    assert_eq!(loop_key(&g, 6 * 12, 6), loop_key(&g, 0, 6));
    assert_eq!(loop_key(&g, 5, 1), 5);
}
