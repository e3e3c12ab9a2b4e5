use evogait::evolve::{
    elite_count, mean_elite_count, enforce_beats, mutate, next_generation, pick_parent, random_loop, KeyLoop,
};
use evogait::rng::XorShift64;

fn qp(k: u8) -> bool {
    k == 1 || k == 4 || k == 6
}

fn wo(k: u8) -> bool {
    k == 2 || k == 3 || k == 7
}

#[test]
fn random_loop_draws_keys_mod_nine() {
    let mut a = XorShift64::new(5);
    let mut b = XorShift64::new(5);
    let g = random_loop(&mut a);
    for k in g {
        assert!(k < 9);
        assert_eq!(k, (b.next_u64() % 9) as u8);
    }
    assert_eq!(a.next_u64(), b.next_u64());
}

#[test]
fn mutate_matches_quarter_rule() {
    let parent: KeyLoop = [7, 5, 2, 7, 1, 1, 7, 7, 3, 1, 6, 6];
    let mut forced = 0;
    for seed in (1..40u64).chain([117u64]) {
        let mut a = XorShift64::new(seed);
        let mut b = XorShift64::new(seed);
        let child = mutate(&mut a, &parent);
        // Reference: per-slot redraw when the uniform draw is below 0.25.
        let mut out = parent;
        for v in out.iter_mut() {
            let u = (b.next_u53() as f64) / ((1u64 << 53) as f64);
            if u < 0.25 {
                *v = (b.next_u64() % 9) as u8;
            }
        }
        if out == parent {
            forced += 1;
            // The assigned value is evaluated before the indexed place.
            out[(b.next_u64() as usize) % 12] = (b.next_u64() % 9) as u8;
        }
        assert_eq!(child, out);
        assert!(child.iter().all(|k| *k < 9));
        assert_eq!(a.next_u64(), b.next_u64());
    }
    assert!(forced >= 1, "the forced redraw is exercised");
}

#[test]
fn forced_redraw_draws_key_then_slot() {
    // Seed 117 leaves every slot as it was, so the forced redraw runs: key 1 goes to
    // slot 4, which already holds 1, leaving the child equal to its parent.
    let parent: KeyLoop = [7, 5, 2, 7, 1, 1, 7, 7, 3, 1, 6, 6];
    let mut rng = XorShift64::new(117);
    let child = mutate(&mut rng, &parent);
    assert_eq!(child, parent);
}

#[test]
fn enforce_beats_leaves_walking_loop() {
    let mut keys = [1u8, 4, 2, 3, 0, 0, 0, 0, 0, 0, 0, 0];
    let before = keys;
    let mut rng = XorShift64::new(3);
    let mut probe = XorShift64::new(3);
    enforce_beats(&mut rng, &mut keys);
    assert_eq!(keys, before);
    assert_eq!(rng.next_u64(), probe.next_u64());
}

#[test]
fn enforce_beats_repairs_flail() {
    for seed in 1..30u64 {
        let mut keys = [0u8; 12];
        let mut rng = XorShift64::new(seed);
        enforce_beats(&mut rng, &mut keys);
        let n_qp = keys.iter().filter(|k| qp(**k)).count();
        let n_wo = keys.iter().filter(|k| wo(**k)).count();
        assert!(keys.iter().all(|k| *k == 0 || qp(*k) || wo(*k)));
        // 24 rounds are plenty for an all-zero loop.
        assert!(n_qp >= 2 && n_wo >= 2, "seed {seed}: {keys:?}");
    }
}

#[test]
fn elite_count_is_quarter_at_least_two() {
    assert_eq!(elite_count(24), 6);
    assert_eq!(elite_count(4), 2);
    assert_eq!(elite_count(1), 1);
    assert_eq!(elite_count(0), 0);
    assert_eq!(elite_count(9), 2);
    assert_eq!(elite_count(13), 3);
}

#[test]
fn next_generation_keeps_elites() {
    let mut rng = XorShift64::new(11);
    let ranked: Vec<KeyLoop> = (0..8).map(|_| random_loop(&mut rng)).collect();
    let mut a = XorShift64::new(77);
    let mut b = XorShift64::new(77);
    let next = next_generation(&mut a, &ranked, 8);
    assert_eq!(next.len(), 8);
    assert_eq!(next[0], ranked[0]);
    assert_eq!(next[1], ranked[1]);
    for i in 2..8 {
        let p = pick_parent(&mut b, 2);
        assert!(p < 2);
        let child = mutate(&mut b, &ranked[p]);
        assert_eq!(next[i], child);
    }
}

#[test]
fn mean_elite_count_caps_at_six_or_quarter() {
    assert_eq!(mean_elite_count(24, 24), 6);
    assert_eq!(mean_elite_count(40, 40), 10);
    assert_eq!(mean_elite_count(3, 3), 3);
    assert_eq!(mean_elite_count(0, 0), 0);
    assert_eq!(mean_elite_count(8, 8), 6);
}

#[test]
fn stale_count_resets_and_stops_at_patience() {
    let mut stale = 0usize;
    let mut stops = Vec::new();
    for improved in [true, false, false, true, false, false, false] {
        let (next, stop) = evogait::evolve::stale_step(stale, improved, 3);
        stale = next;
        stops.push(stop);
    }
    assert_eq!(stale, 3);
    assert_eq!(stops, vec![false, false, false, false, false, false, true]);
    assert_eq!(evogait::evolve::stale_step(40, false, 0), (41, false));
}
