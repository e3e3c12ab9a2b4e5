//! Integer side of the key-loop evolution: random loops, mutation,
//! structural repair, elitism and breeding, all driven by `XorShift64`.
use vstd::prelude::*;
use crate::rng::{XorShift64, xorshift, xorshift_n};

verus! {

/// Period of an evolved open-loop key sequence.
pub const PERIOD: usize = 12;

/// A periodic Discrete-9 key loop.
pub type KeyLoop = [u8; PERIOD];

/// `2^51`: a 53-bit draw below this is a draw below one quarter.
pub const QUARTER_UNIT53: u64 = 0x8_0000_0000_0000;

/// The Discrete-9 action drawn from a generator output.
pub open spec fn draw_key(x: u64) -> u8 {
    (x % 9) as u8
}

/// Every key of a loop is a Discrete-9 action.
pub open spec fn valid_loop(g: Seq<u8>) -> bool {
    forall|i: int| 0 <= i < g.len() ==> #[trigger] g[i] < 9
}

/// The loop drawn from state `s`: slot `i` takes the `i+1`-th draw.
pub open spec fn random_loop_spec(s: u64) -> Seq<u8> {
    Seq::new(PERIOD as nat, |i: int| draw_key(xorshift_n(s, (i + 1) as nat)))
}

/// A random key loop: each slot is the next draw modulo 9.
pub fn random_loop(rng: &mut XorShift64) -> (r: KeyLoop)
    ensures
        r@ == random_loop_spec(old(rng)@),
        final(rng)@ == xorshift_n(old(rng)@, PERIOD as nat),
        valid_loop(r@),
{
    let mut g = [0u8; PERIOD];
    let ghost s0 = rng@;
    for i in 0..PERIOD
        invariant
            rng@ == xorshift_n(s0, i as nat),
            forall|j: int| 0 <= j < i ==> g@[j] == draw_key(xorshift_n(s0, (j + 1) as nat)),
            g@.len() == PERIOD,
    {
        let x = rng.next_u64();
        g[i] = (x % 9) as u8;
    }
    assert(g@ =~= random_loop_spec(s0));
    g
}

/// Mutation of slots `0..i`: each slot is redrawn when a 53-bit draw falls
/// below one quarter. Returns the generator state and the keys.
pub open spec fn mutate_slots(s: u64, g: Seq<u8>, i: nat) -> (u64, Seq<u8>)
    decreases i,
{
    if i == 0 {
        (s, g)
    } else {
        let (s1, out) = mutate_slots(s, g, (i - 1) as nat);
        let s2 = xorshift(s1);
        if (s2 >> 11u64) < QUARTER_UNIT53 {
            let s3 = xorshift(s2);
            (s3, out.update(i - 1, draw_key(s3)))
        } else {
            (s2, out)
        }
    }
}

/// The full mutation from state `s`: per-slot redraws, then, when nothing
/// changed, one forced redraw: the new key is drawn first, then the slot
/// it goes to.
pub open spec fn mutate_spec(s: u64, g: Seq<u8>) -> (u64, Seq<u8>) {
    let (s1, out) = mutate_slots(s, g, PERIOD as nat);
    if out == g {
        let s2 = xorshift(s1);
        let s3 = xorshift(s2);
        let idx = ((s3 as usize) % PERIOD) as int;
        (s3, out.update(idx, draw_key(s2)))
    } else {
        (s1, out)
    }
}

proof fn lemma_mutate_slots_shape(s: u64, g: Seq<u8>, i: nat)
    requires
        g.len() == PERIOD,
        i <= PERIOD,
    ensures
        mutate_slots(s, g, i).1.len() == PERIOD,
        forall|j: int| i <= j < PERIOD ==> #[trigger] mutate_slots(s, g, i).1[j] == g[j],
        forall|j: int|
            0 <= j < PERIOD ==> #[trigger] mutate_slots(s, g, i).1[j] == g[j]
                || mutate_slots(s, g, i).1[j] < 9,
    decreases i,
{
    if i > 0 {
        lemma_mutate_slots_shape(s, g, (i - 1) as nat);
    }
}

/// Mutation keeps every key of a loop a Discrete-9 action.
pub proof fn lemma_mutate_valid(s: u64, g: Seq<u8>)
    requires
        g.len() == PERIOD,
        valid_loop(g),
    ensures
        mutate_spec(s, g).1.len() == PERIOD,
        valid_loop(mutate_spec(s, g).1),
{
    lemma_mutate_slots_shape(s, g, PERIOD as nat);
    let out = mutate_slots(s, g, PERIOD as nat).1;
    assert forall|j: int| 0 <= j < PERIOD implies #[trigger] out[j] < 9 by {
        assert(out[j] == g[j] || out[j] < 9);
    }
}

/// When the per-slot pass changes nothing, the forced redraw writes the
/// first fresh draw (as a key) into the slot named by the second draw; the
/// child then differs from the parent unless that slot already held that
/// key. Otherwise the per-slot result stands.
pub proof fn lemma_mutate_forced_redraw(s: u64, g: Seq<u8>)
    requires
        g.len() == PERIOD,
    ensures
        ({
            let (s1, out) = mutate_slots(s, g, PERIOD as nat);
            let key = (xorshift(s1) % 9) as u8;
            let slot = ((xorshift(xorshift(s1)) as usize) % PERIOD) as int;
            out == g ==> {
                &&& mutate_spec(s, g).0 == xorshift(xorshift(s1))
                &&& mutate_spec(s, g).1[slot] == key
                &&& forall|j: int| 0 <= j < PERIOD && j != slot ==> #[trigger] mutate_spec(s, g).1[j] == g[j]
                &&& (mutate_spec(s, g).1 == g <==> g[slot] == key)
            }
        }),
        ({
            let (s1, out) = mutate_slots(s, g, PERIOD as nat);
            out != g ==> mutate_spec(s, g) == (s1, out)
        }),
{
    let (s1, out) = mutate_slots(s, g, PERIOD as nat);
    if out == g {
        let key = (xorshift(s1) % 9) as u8;
        let slot = ((xorshift(xorshift(s1)) as usize) % PERIOD) as int;
        let r = mutate_spec(s, g).1;
        assert(r == g.update(slot, key));
        if g[slot] == key {
            assert(r =~= g);
        }
    }
}

/// Whether two loops hold the same keys.
fn same_loop(a: &KeyLoop, b: &KeyLoop) -> (r: bool)
    ensures
        r == (a@ == b@),
{
    let mut i: usize = 0;
    while i < PERIOD
        invariant
            i <= PERIOD,
            forall|j: int| 0 <= j < i ==> a@[j] == b@[j],
        decreases PERIOD - i,
    {
        if a[i] != b[i] {
            return false;
        }
        i += 1;
    }
    assert(a@ =~= b@);
    true
}

/// Mutate a loop: each key is redrawn with probability 1/4 (a 53-bit draw
/// below `2^51`, that is a uniform `[0, 1)` draw below 0.25); when no key
/// changed, a new key is drawn and written to a randomly drawn slot.
pub fn mutate(rng: &mut XorShift64, g: &KeyLoop) -> (r: KeyLoop)
    ensures
        (final(rng)@, r@) == mutate_spec(old(rng)@, g@),
        valid_loop(g@) ==> valid_loop(r@),
        ({
            let (s1, out) = mutate_slots(old(rng)@, g@, PERIOD as nat);
            out == g@ ==> {
                &&& final(rng)@ == xorshift(xorshift(s1))
                &&& r@ == g@.update(
                    ((xorshift(xorshift(s1)) as usize) % PERIOD) as int,
                    (xorshift(s1) % 9) as u8,
                )
            }
        }),
        ({
            let (s1, out) = mutate_slots(old(rng)@, g@, PERIOD as nat);
            out != g@ ==> final(rng)@ == s1 && r@ == out
        }),
{
    let ghost s0 = rng@;
    let mut out = *g;
    for i in 0..PERIOD
        invariant
            (rng@, out@) == mutate_slots(s0, g@, i as nat),
            out@.len() == PERIOD,
    {
        proof {
            lemma_mutate_slots_shape(s0, g@, i as nat);
        }
        let u = rng.next_u53();
        if u < QUARTER_UNIT53 {
            let x = rng.next_u64();
            out[i] = (x % 9) as u8;
        }
        proof {
            assert(mutate_slots(s0, g@, (i + 1) as nat).1 =~= out@);
        }
    }
    if same_loop(&out, g) {
        let key = (rng.next_u64() % 9) as u8;
        let y = rng.next_u64();
        let idx = (#[verifier::truncate] (y as usize)) % PERIOD;
        out[idx] = key;
        proof {
            lemma_mutate_slots_shape(s0, g@, PERIOD as nat);
        }
        assert(out@ =~= mutate_spec(s0, g@).1);
    }
    proof {
        if valid_loop(g@) {
            lemma_mutate_valid(s0, g@);
        }
    }
    out
}

/// QP-family keys: Q, P, QP.
pub open spec fn is_qp(k: u8) -> bool {
    k == 1 || k == 4 || k == 6
}

/// WO-family keys: W, O, WO.
pub open spec fn is_wo(k: u8) -> bool {
    k == 2 || k == 3 || k == 7
}

/// Number of QP-family keys in `keys`.
pub open spec fn qp_count(keys: Seq<u8>) -> nat
    decreases keys.len(),
{
    if keys.len() == 0 {
        0
    } else {
        qp_count(keys.drop_last()) + if is_qp(keys.last()) {
            1nat
        } else {
            0nat
        }
    }
}

/// Number of WO-family keys in `keys`.
pub open spec fn wo_count(keys: Seq<u8>) -> nat
    decreases keys.len(),
{
    if keys.len() == 0 {
        0
    } else {
        wo_count(keys.drop_last()) + if is_wo(keys.last()) {
            1nat
        } else {
            0nat
        }
    }
}

/// A walking loop holds at least two keys of each cross family.
pub open spec fn has_beats(keys: Seq<u8>) -> bool {
    qp_count(keys) >= 2 && wo_count(keys) >= 2
}

/// The `j`-th key (`j` in `0..3`) of a family.
pub open spec fn family_key(qp: bool, j: int) -> u8 {
    if qp {
        if j == 0 {
            1u8
        } else if j == 1 {
            4u8
        } else {
            6u8
        }
    } else {
        if j == 0 {
            2u8
        } else if j == 1 {
            3u8
        } else {
            7u8
        }
    }
}

/// At most `n` repair rounds from state `s`: stop once both families hold
/// two slots; otherwise overwrite a random slot with a random key of the
/// family that is short (QP first).
pub open spec fn repair_spec(s: u64, keys: Seq<u8>, n: nat) -> (u64, Seq<u8>)
    decreases n,
{
    if n == 0 || has_beats(keys) {
        (s, keys)
    } else {
        let s1 = xorshift(s);
        let i = ((s1 as usize) % 12) as int;
        let s2 = xorshift(s1);
        let j = ((s2 as usize) % 3) as int;
        let k = family_key(qp_count(keys) < 2, j);
        repair_spec(s2, keys.update(i, k), (n - 1) as nat)
    }
}

/// Number of repair rounds `enforce_beats` allows.
pub const REPAIR_ROUNDS: usize = 24;

/// A loop that already holds both cross families is left alone, and the
/// generator is not drawn from.
pub proof fn lemma_repair_keeps_walking_loop(s: u64, keys: Seq<u8>, n: nat)
    requires
        has_beats(keys),
    ensures
        repair_spec(s, keys, n) == (s, keys),
{
}

/// A repair round is skipped only when both families already hold two
/// slots: otherwise the round overwrites the slot named by the first draw
/// with a key of the short family (QP when fewer than two QP keys, else
/// WO) chosen by the second draw, leaving every other slot as it was, and
/// repair goes on from there.
pub proof fn lemma_repair_round(s: u64, keys: Seq<u8>, n: nat)
    requires
        keys.len() == 12,
        n > 0,
        !has_beats(keys),
    ensures
        ({
            let s1 = xorshift(s);
            let s2 = xorshift(s1);
            let slot = ((s1 as usize) % 12) as int;
            let k = if qp_count(keys) < 2 {
                if (s2 as usize) % 3 == 0 { 1u8 } else if (s2 as usize) % 3 == 1 { 4u8 } else { 6u8 }
            } else {
                if (s2 as usize) % 3 == 0 { 2u8 } else if (s2 as usize) % 3 == 1 { 3u8 } else { 7u8 }
            };
            &&& qp_count(keys) < 2 ==> is_qp(k)
            &&& qp_count(keys) >= 2 ==> is_wo(k)
            &&& repair_spec(s, keys, n) == repair_spec(s2, keys.update(slot, k), (n - 1) as nat)
        }),
{
}

/// From a loop with two QP keys and no WO key, the first repair round
/// writes a WO key: after one round the loop holds a WO key.
pub proof fn lemma_repair_first_round_fills_short_family(s: u64, keys: Seq<u8>)
    requires
        keys.len() == 12,
        qp_count(keys) >= 2,
        wo_count(keys) == 0,
    ensures
        wo_count(repair_spec(s, keys, 1).1) >= 1,
{
    let s1 = xorshift(s);
    let s2 = xorshift(s1);
    let slot = ((s1 as usize) % 12) as int;
    let j = ((s2 as usize) % 3) as int;
    let k = family_key(false, j);
    let next = keys.update(slot, k);
    assert(!has_beats(keys));
    assert(repair_spec(s2, next, 0) == (s2, next));
    assert(repair_spec(s, keys, 1) == repair_spec(s2, next, 0));
    assert(is_wo(next[slot]));
    lemma_wo_count_holds(next, slot);
}

/// A loop with a WO key at `i` counts at least one WO key.
proof fn lemma_wo_count_holds(keys: Seq<u8>, i: int)
    requires
        0 <= i < keys.len(),
        is_wo(keys[i]),
    ensures
        wo_count(keys) >= 1,
    decreases keys.len(),
{
    if i < keys.len() - 1 {
        let d = keys.drop_last();
        assert(d[i] == keys[i]);
        lemma_wo_count_holds(d, i);
    }
}

/// Once both families hold two slots, repair stops for good: more rounds
/// change nothing.
pub proof fn lemma_repair_stops_at_beats(s: u64, keys: Seq<u8>, m: nat, n: nat)
    requires
        m <= n,
        has_beats(repair_spec(s, keys, m).1),
    ensures
        repair_spec(s, keys, n) == repair_spec(s, keys, m),
    decreases m,
{
    if has_beats(keys) {
    } else if m == 0 {
    } else {
        let s1 = xorshift(s);
        let i = ((s1 as usize) % 12) as int;
        let s2 = xorshift(s1);
        let j = ((s2 as usize) % 3) as int;
        let k = family_key(qp_count(keys) < 2, j);
        lemma_repair_stops_at_beats(s2, keys.update(i, k), (m - 1) as nat, (n - 1) as nat);
    }
}

/// Repair ends with both families holding two slots unless no round
/// reached that: a loop left short went through every round short.
pub proof fn lemma_repair_walks_or_exhausts(s: u64, keys: Seq<u8>, n: nat)
    ensures
        has_beats(repair_spec(s, keys, n).1) || forall|m: nat|
            m <= n ==> !has_beats(#[trigger] repair_spec(s, keys, m).1),
{
    if !has_beats(repair_spec(s, keys, n).1) {
        assert forall|m: nat| m <= n implies !has_beats(#[trigger] repair_spec(s, keys, m).1) by {
            if has_beats(repair_spec(s, keys, m).1) {
                lemma_repair_stops_at_beats(s, keys, m, n);
            }
        }
    }
}

/// Repair only writes family keys: every slot either keeps its key or now
/// holds a QP- or WO-family key; a loop of Discrete-9 actions stays one.
pub proof fn lemma_repair_writes_family_keys(s: u64, keys: Seq<u8>, n: nat)
    requires
        keys.len() == 12,
    ensures
        repair_spec(s, keys, n).1.len() == 12,
        forall|j: int|
            0 <= j < 12 ==> #[trigger] repair_spec(s, keys, n).1[j] == keys[j] || is_qp(
                repair_spec(s, keys, n).1[j],
            ) || is_wo(repair_spec(s, keys, n).1[j]),
        valid_loop(keys) ==> valid_loop(repair_spec(s, keys, n).1),
    decreases n,
{
    if n > 0 && !has_beats(keys) {
        let s1 = xorshift(s);
        let i = ((s1 as usize) % 12) as int;
        let s2 = xorshift(s1);
        let j = ((s2 as usize) % 3) as int;
        let k = family_key(qp_count(keys) < 2, j);
        let next = keys.update(i, k);
        lemma_repair_writes_family_keys(s2, next, (n - 1) as nat);
        let r = repair_spec(s, keys, n).1;
        assert(r == repair_spec(s2, next, (n - 1) as nat).1);
        assert forall|m: int| 0 <= m < 12 implies #[trigger] r[m] == keys[m] || is_qp(r[m])
            || is_wo(r[m]) by {
            if m == i {
                assert(next[m] == k);
            } else {
                assert(next[m] == keys[m]);
            }
        }
        if valid_loop(keys) {
            assert forall|m: int| 0 <= m < next.len() implies #[trigger] next[m] < 9 by {
                if m == i {
                } else {
                    assert(next[m] == keys[m]);
                }
            }
        }
    }
}

/// Count the keys of each cross family: `(qp, wo)`.
fn beat_counts(keys: &[u8; 12]) -> (r: (usize, usize))
    ensures
        r.0 == qp_count(keys@),
        r.1 == wo_count(keys@),
{
    let mut qp: usize = 0;
    let mut wo: usize = 0;
    for i in 0..12
        invariant
            keys@.len() == 12,
            qp == qp_count(keys@.take(i as int)),
            wo == wo_count(keys@.take(i as int)),
            qp <= i,
            wo <= i,
    {
        assert(keys@.take(i + 1).drop_last() =~= keys@.take(i as int));
        let k = keys[i];
        if k == 1 || k == 4 || k == 6 {
            qp += 1;
        }
        if k == 2 || k == 3 || k == 7 {
            wo += 1;
        }
    }
    assert(keys@.take(12) =~= keys@);
    (qp, wo)
}

/// WR-style structural prior: a walking loop needs both cross families —
/// QP-family {Q,P} and WO-family {W,O} (same-leg QO/WP never walks).
/// Repair converts random keys until each family holds >= 2 slots, for at
/// most `REPAIR_ROUNDS` rounds.
pub fn enforce_beats(rng: &mut XorShift64, keys: &mut [u8; 12])
    ensures
        (final(rng)@, final(keys)@) == repair_spec(old(rng)@, old(keys)@, REPAIR_ROUNDS as nat),
        has_beats(old(keys)@) ==> final(keys)@ == old(keys)@ && final(rng)@ == old(rng)@,
        valid_loop(old(keys)@) ==> valid_loop(final(keys)@),
        has_beats(final(keys)@) || forall|m: nat|
            m <= REPAIR_ROUNDS ==> !has_beats(#[trigger] repair_spec(old(rng)@, old(keys)@, m).1),
        forall|j: int|
            0 <= j < 12 ==> #[trigger] final(keys)@[j] == old(keys)@[j] || is_qp(final(keys)@[j])
                || is_wo(final(keys)@[j]),
{
    proof {
        lemma_repair_writes_family_keys(rng@, keys@, REPAIR_ROUNDS as nat);
        lemma_repair_walks_or_exhausts(rng@, keys@, REPAIR_ROUNDS as nat);
    }
    let ghost s0 = rng@;
    let ghost k0 = keys@;
    let mut round: usize = 0;
    while round < REPAIR_ROUNDS
        invariant
            round <= REPAIR_ROUNDS,
            keys@.len() == 12,
            repair_spec(s0, k0, REPAIR_ROUNDS as nat) == repair_spec(
                rng@,
                keys@,
                (REPAIR_ROUNDS - round) as nat,
            ),
        ensures
            repair_spec(s0, k0, REPAIR_ROUNDS as nat) == (rng@, keys@),
        decreases REPAIR_ROUNDS - round,
    {
        let (n_qp, n_wo) = beat_counts(keys);
        if n_qp >= 2 && n_wo >= 2 {
            break;
        }
        let ghost before_keys = keys@;
        let x = rng.next_u64();
        let i = (#[verifier::truncate] (x as usize)) % 12;
        let y = rng.next_u64();
        let j = (#[verifier::truncate] (y as usize)) % 3;
        let k: u8 = if n_qp < 2 {
            if j == 0 {
                1
            } else if j == 1 {
                4
            } else {
                6
            }
        } else {
            if j == 0 {
                2
            } else if j == 1 {
                3
            } else {
                7
            }
        };
        keys[i] = k;
        assert(keys@ =~= before_keys.update(i as int, k));
        round += 1;
    }
}

/// Number of elites kept per generation: a quarter of the population, at
/// least two, at most the whole population.
pub open spec fn elite_count_spec(pop: int) -> int {
    let q = pop / 4;
    let e = if q < 2 { 2 } else { q };
    if e < pop { e } else { pop }
}

/// A quarter of the population is kept once that is at least two;
/// smaller populations keep two, or all when fewer than two.
pub proof fn lemma_elite_count_is_quarter(pop: int)
    requires
        pop >= 0,
    ensures
        pop >= 8 ==> elite_count_spec(pop) == pop / 4,
        pop < 8 ==> elite_count_spec(pop) == (if pop < 2 { pop } else { 2 }),
        elite_count_spec(pop) <= pop,
        4 * elite_count_spec(pop) <= pop || elite_count_spec(pop) <= 2,
{
}

/// Number of elites kept per generation.
pub fn elite_count(pop: usize) -> (r: usize)
    ensures
        r == elite_count_spec(pop as int),
        pop >= 8 ==> r == pop / 4,
        pop < 8 ==> r == (if pop < 2 { pop } else { 2 }),
        r <= pop,
        pop >= 1 ==> r >= 1,
        pop >= 2 ==> r >= 2,
{
    let q = pop / 4;
    let e = if q < 2 {
        2
    } else {
        q
    };
    if e < pop {
        e
    } else {
        pop
    }
}

/// Elites averaged by the toy CPG evolution strategy out of `scored`
/// samples of a population of `pop`: up to six, at least a quarter of the
/// population, never more than were scored.
pub open spec fn mean_elite_count_spec(scored: int, pop: int) -> int {
    let a = if scored < 1 { 1 } else { scored };
    let b = if a < 6 { a } else { 6 };
    let c = if b < pop / 4 { pop / 4 } else { b };
    if c < scored { c } else { scored }
}

/// Number of elites the toy CPG evolution averages into its next mean.
pub fn mean_elite_count(scored: usize, pop: usize) -> (r: usize)
    ensures
        r == mean_elite_count_spec(scored as int, pop as int),
        r <= scored,
        scored >= 1 ==> r >= 1,
{
    let a = if scored < 1 {
        1
    } else {
        scored
    };
    let b = if a < 6 {
        a
    } else {
        6
    };
    let c = if b < pop / 4 {
        pop / 4
    } else {
        b
    };
    if c < scored {
        c
    } else {
        scored
    }
}

/// Plateau bookkeeping of one generation: the stale count resets when the
/// best score improved and grows otherwise; evolution stops once it reaches
/// a nonzero `patience` (zero disables the stop).
pub fn stale_step(stale: usize, improved: bool, patience: usize) -> (r: (usize, bool))
    requires
        improved || stale < usize::MAX,
    ensures
        r.0 == (if improved { 0 } else { stale + 1 }),
        r.1 == (patience > 0 && r.0 >= patience),
{
    let next = if improved {
        0
    } else {
        stale + 1
    };
    (next, patience > 0 && next >= patience)
}

/// The stale count after a run of generations, fresh at the start;
/// `improved[g]` tells whether generation `g` improved the best score.
pub open spec fn stale_fold(improved: Seq<bool>) -> nat
    decreases improved.len(),
{
    if improved.len() == 0 {
        0
    } else if improved.last() {
        0
    } else {
        stale_fold(improved.drop_last()) + 1
    }
}

/// The stale count is the number of generations since the last
/// improvement: the last `stale` generations all failed to improve, and
/// the one before them (if any) improved. So with patience `p > 0` the
/// run stops exactly when the last `p` generations brought nothing.
pub proof fn lemma_stale_counts_since_improvement(improved: Seq<bool>)
    ensures
        stale_fold(improved) <= improved.len(),
        forall|i: int|
            improved.len() - stale_fold(improved) <= i < improved.len() ==> !#[trigger] improved[i],
        stale_fold(improved) < improved.len() ==> improved[improved.len() - stale_fold(improved)
            - 1],
    decreases improved.len(),
{
    if improved.len() > 0 && !improved.last() {
        let init = improved.drop_last();
        lemma_stale_counts_since_improvement(init);
        assert forall|i: int|
            improved.len() - stale_fold(improved) <= i < improved.len() implies !#[trigger] improved[i] by {
            if i < improved.len() - 1 {
                assert(improved[i] == init[i]);
            }
        }
        if stale_fold(improved) < improved.len() {
            assert(improved[improved.len() - stale_fold(improved) - 1] == init[init.len()
                - stale_fold(init) - 1]);
        }
    }
}

/// Pick a parent index among the first `elite` ranked genomes.
pub fn pick_parent(rng: &mut XorShift64, elite: usize) -> (r: usize)
    requires
        elite > 0,
    ensures
        final(rng)@ == xorshift(old(rng)@),
        r == (xorshift(old(rng)@) as usize) % elite,
        r < elite,
{
    let x = rng.next_u64();
    (#[verifier::truncate] (x as usize)) % elite
}

/// The children bred after the elites: `n` of them, each a mutation of a
/// randomly picked elite parent.
pub open spec fn children_spec(s: u64, ranked: Seq<Seq<u8>>, elite: int, n: nat) -> (
    u64,
    Seq<Seq<u8>>,
)
    decreases n,
{
    if n == 0 {
        (s, Seq::empty())
    } else {
        let (s1, c) = children_spec(s, ranked, elite, (n - 1) as nat);
        let s2 = xorshift(s1);
        let parent = ranked[((s2 as usize) % (elite as usize)) as int];
        let (s3, child) = mutate_spec(s2, parent);
        (s3, c.push(child))
    }
}

/// The loops of a generation, each as its key sequence.
pub open spec fn loops_view(v: Seq<KeyLoop>) -> Seq<Seq<u8>> {
    v.map_values(|g: KeyLoop| g@)
}

/// Next generation of a ranked population (best first): the elites
/// survive unchanged, then mutated copies of random elites fill it up.
pub fn next_generation(rng: &mut XorShift64, ranked: &Vec<KeyLoop>, pop: usize) -> (r: Vec<KeyLoop>)
    requires
        pop >= 1,
        ranked@.len() >= elite_count_spec(pop as int),
    ensures
        r@.len() == pop,
        r@.subrange(0, elite_count_spec(pop as int)) == ranked@.subrange(
            0,
            elite_count_spec(pop as int),
        ),
        (final(rng)@, loops_view(r@).subrange(elite_count_spec(pop as int), pop as int))
            == children_spec(
            old(rng)@,
            loops_view(ranked@),
            elite_count_spec(pop as int),
            (pop - elite_count_spec(pop as int)) as nat,
        ),
{
    let elite = elite_count(pop);
    let ghost s0 = rng@;
    let ghost rv = loops_view(ranked@);
    let mut next: Vec<KeyLoop> = Vec::new();
    for i in 0..elite
        invariant
            elite <= ranked@.len(),
            next@ == ranked@.subrange(0, i as int),
    {
        next.push(ranked[i]);
        assert(next@ =~= ranked@.subrange(0, i + 1));
    }
    while next.len() < pop
        invariant
            1 <= elite <= pop,
            elite == elite_count_spec(pop as int),
            elite <= ranked@.len(),
            rv == loops_view(ranked@),
            elite <= next@.len() <= pop,
            next@.subrange(0, elite as int) == ranked@.subrange(0, elite as int),
            (rng@, loops_view(next@).subrange(elite as int, next@.len() as int)) == children_spec(
                s0,
                rv,
                elite as int,
                (next@.len() - elite) as nat,
            ),
        decreases pop - next@.len(),
    {
        let ghost before = next@;
        let p = pick_parent(rng, elite);
        let parent = ranked[p];
        let child = mutate(rng, &parent);
        next.push(child);
        proof {
            assert(next@.subrange(0, elite as int) =~= before.subrange(0, elite as int));
            assert(loops_view(next@).subrange(elite as int, next@.len() as int) =~= loops_view(
                before,
            ).subrange(elite as int, before.len() as int).push(child@));
            assert(rv[p as int] == parent@);
        }
    }
    next
}
} // verus!
