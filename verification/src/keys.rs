//! The Discrete-9 key vocabulary: which of Q, W, O, P each action holds,
//! what the held keys ask of the thigh and calf motors, and which key of a
//! periodic loop is held at a given physics step.
use vstd::prelude::*;

verus! {

/// Length of an evolved key loop.
pub const LOOP_LEN: usize = 12;

/// Number of Discrete-9 actions.
pub const N_ACTIONS: usize = 9;

/// Discrete-9 reduced action set: index -> (q, w, o, p) held keys.
pub const ACTIONS_9: [[bool; 4]; 9] = [
    [false, false, false, false],  // 0 none
    [true, false, false, false],  // 1 Q
    [false, true, false, false],  // 2 W
    [false, false, true, false],  // 3 O
    [false, false, false, true],  // 4 P
    [true, true, false, false],  // 5 QW
    [true, false, false, true],  // 6 QP
    [false, true, true, false],  // 7 WO
    [false, false, true, true],  // 8 OP
];

/// The (q, w, o, p) keys held by action `a` (`a` in `0..9`).
pub open spec fn keys_of(a: int) -> Seq<bool> {
    let q = a == 1 || a == 5 || a == 6;
    let w = a == 2 || a == 5 || a == 7;
    let o = a == 3 || a == 7 || a == 8;
    let p = a == 4 || a == 6 || a == 8;
    seq![q, w, o, p]
}

/// The keys held by a Discrete-9 action; indices past 8 act as 8.
pub fn action_keys(action: usize) -> (r: [bool; 4])
    ensures
        r@ == keys_of(if action < 8 { action as int } else { 8 }),
{
    let a = if action < 8 {
        action
    } else {
        8
    };
    let r = ACTIONS_9[a];
    assert(r@ =~= keys_of(a as int));
    r
}

/// Which key of an opposing pair (Q/W for the thighs, O/P for the calves)
/// wins: exactly one held key drives its way; both or neither hold still.
#[derive(Clone, Copy, Debug, PartialEq, Eq, Structural)]
pub enum Press {
    First,
    Second,
    Neither,
}

/// The press of the pair `(first, second)`.
pub open spec fn press_of(first: bool, second: bool) -> Press {
    if first && !second {
        Press::First
    } else if second && !first {
        Press::Second
    } else {
        Press::Neither
    }
}

/// The motor request of a key state: the Q/W press drives hips and
/// shoulders, the O/P press drives knees and reshapes the hip ranges.
#[derive(Clone, Copy, Debug, PartialEq, Eq, Structural)]
pub struct MotorPlan {
    pub thighs: Press,
    pub calves: Press,
}

/// The motor request of the held keys `[q, w, o, p]`.
pub fn motor_plan(keys: [bool; 4]) -> (r: MotorPlan)
    ensures
        r.thighs == press_of(keys[0], keys[1]),
        r.calves == press_of(keys[2], keys[3]),
{
    MotorPlan { thighs: key_pair(keys[0], keys[1]), calves: key_pair(keys[2], keys[3]) }
}

fn key_pair(first: bool, second: bool) -> (r: Press)
    ensures
        r == press_of(first, second),
{
    if first && !second {
        Press::First
    } else if second && !first {
        Press::Second
    } else {
        Press::Neither
    }
}

/// Opposing keys cancel: holding both keys of a pair asks the same of the
/// motors as holding neither, and mirroring the pair mirrors the press.
pub proof fn lemma_press_cancel_and_mirror(a: bool, b: bool)
    ensures
        press_of(true, true) == press_of(false, false),
        press_of(a, b) == Press::First <==> press_of(b, a) == Press::Second,
        press_of(a, b) == Press::Neither <==> press_of(b, a) == Press::Neither,
{
}

/// Whether action `key` (in `0..9`) holds a thigh key (Q or W).
pub open spec fn is_drive(key: int) -> bool {
    keys_of(key)[0] || keys_of(key)[1]
}

/// Whether a Discrete-9 action pushes with the thighs (Q or W held).
pub fn is_drive_key(key: usize) -> (r: bool)
    requires
        key < N_ACTIONS,
    ensures
        r == is_drive(key as int),
        r == (key == 1 || key == 2 || key == 5 || key == 6 || key == 7),
{
    let k = action_keys(key);
    k[0] || k[1]
}

/// The action held at loop slot `idx` (wrapping), clamped into `0..9`.
pub open spec fn slot_action(keys: Seq<u8>, idx: int) -> int {
    let k = keys[idx % (LOOP_LEN as int)];
    if k < 8 { k as int } else { 8 }
}

/// The action a key loop holds at slot `idx` (taken modulo the loop length);
/// keys past 8 act as 8.
pub fn policy_key(keys: &[u8; LOOP_LEN], idx: usize) -> (r: usize)
    ensures
        r == slot_action(keys@, idx as int),
        r < N_ACTIONS,
{
    let k = keys[idx % LOOP_LEN];
    if k < 8 {
        k as usize
    } else {
        8
    }
}

/// The key a loop replay holds at physics step `i` when each key is held
/// for `hold` steps.
pub open spec fn replay_key(keys: Seq<u8>, i: int, hold: int) -> u8 {
    keys[(i / hold) % (LOOP_LEN as int)]
}

/// The key held at physics step `i` of a loop replay: each loop key is
/// held for `hold` consecutive steps, and the loop repeats.
pub fn loop_key(keys: &[u8; LOOP_LEN], i: usize, hold: usize) -> (r: usize)
    requires
        hold > 0,
    ensures
        r == replay_key(keys@, i as int, hold as int),
{
    keys[(i / hold) % LOOP_LEN] as usize
}

/// A loop replay is periodic: `hold * LOOP_LEN` steps later the same key is
/// held; and every key is held for a whole block of `hold` steps.
pub proof fn lemma_replay_periodic(keys: Seq<u8>, k: int, r: int, hold: int)
    requires
        hold > 0,
        k >= 0,
        0 <= r < hold,
    ensures
        replay_key(keys, k * hold + r, hold) == keys[k % (LOOP_LEN as int)],
        replay_key(keys, (k + LOOP_LEN as int) * hold + r, hold) == replay_key(
            keys,
            k * hold + r,
            hold,
        ),
{
    assert((k * hold + r) / hold == k) by (nonlinear_arith)
        requires
            hold > 0,
            k >= 0,
            0 <= r < hold,
    ;
    let k2 = k + LOOP_LEN as int;
    assert((k2 * hold + r) / hold == k2) by (nonlinear_arith)
        requires
            hold > 0,
            k2 >= 0,
            0 <= r < hold,
    ;
    assert((k + 12) % 12 == k % 12);
}

} // verus!
