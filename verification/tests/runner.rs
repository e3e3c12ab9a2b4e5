use evogait::runner::{touchdown, ActionTally, Lead, LeadTracker};

/// Dead band used by the feedback runner (game units).
const LEAD_DEADBAND: f64 = 0.15;

fn classify(left_x: f64, right_x: f64) -> Lead {
    let sep = left_x - right_x;
    if sep > LEAD_DEADBAND {
        Lead::Left
    } else if sep < -LEAD_DEADBAND {
        Lead::Right
    } else {
        Lead::Neutral
    }
}

fn alternation(t: &LeadTracker) -> f64 {
    match t.shared_lead() {
        None => 0.0,
        Some((num, den)) => num as f64 / den as f64,
    }
}

fn feed(t: &mut LeadTracker, seq: &[(f64, f64, bool)]) {
    for (l, r, m) in seq {
        assert!(t.can_observe());
        t.observe(classify(*l, *r), *m);
    }
}

#[test]
fn alternation_metric_logic() {
    // Perfect sharing while moving: L x6, R x6, L x6, R x6.
    let mut r = LeadTracker::new();
    let mut seq = Vec::new();
    for k in 0..4 {
        let (l, rr) = if k % 2 == 0 { (1.0, 0.0) } else { (0.0, 1.0) };
        for _ in 0..6 {
            seq.push((l, rr, true));
        }
    }
    feed(&mut r, &seq);
    assert!(r.lead_changes() >= 3, "changes={}", r.lead_changes());
    assert!((alternation(&r) - 0.5).abs() < 0.05, "alt={}", alternation(&r));
    // One-sided while moving: no alternation.
    let mut r2 = LeadTracker::new();
    feed(&mut r2, &vec![(1.0, 0.0, true); 24]);
    assert_eq!(alternation(&r2), 0.0);
    // Sharing while still: rocking in place earns nothing.
    let mut r3 = LeadTracker::new();
    let mut seq3 = Vec::new();
    for k in 0..4 {
        let (l, rr) = if k % 2 == 0 { (1.0, 0.0) } else { (0.0, 1.0) };
        for _ in 0..6 {
            seq3.push((l, rr, false));
        }
    }
    feed(&mut r3, &seq3);
    assert_eq!(alternation(&r3), 0.0);
    // Fast jitter while moving: never held 5 steps, no alternation.
    let mut r4 = LeadTracker::new();
    let mut seq4 = Vec::new();
    for k in 0..24 {
        let (l, rr) = if k % 2 == 0 { (1.0, 0.0) } else { (0.0, 1.0) };
        seq4.push((l, rr, true));
    }
    feed(&mut r4, &seq4);
    assert_eq!(alternation(&r4), 0.0);
}

#[test]
fn lead_counts_exactly_for_perfect_sharing() {
    let mut t = LeadTracker::new();
    for k in 0..4 {
        let lead = if k % 2 == 0 { Lead::Left } else { Lead::Right };
        for _ in 0..6 {
            t.observe(lead, true);
        }
    }
    // Each 6-step block counts its last 2 steps; 3 confirmed changes.
    assert_eq!(t.counted_steps(), 8);
    assert_eq!(t.left_lead_steps(), 4);
    assert_eq!(t.right_lead_steps(), 4);
    assert_eq!(t.lead_changes(), 3);
    assert_eq!(t.shared_lead(), Some((4, 8)));
}

#[test]
fn lead_held_once_is_no_change() {
    let mut t = LeadTracker::new();
    for _ in 0..5 {
        t.observe(Lead::Left, true);
    }
    assert_eq!(t.counted_steps(), 1);
    assert_eq!(t.lead_changes(), 0);
    // A neutral gap back to the same lead is not a change.
    t.observe(Lead::Neutral, true);
    for _ in 0..5 {
        t.observe(Lead::Left, true);
    }
    assert_eq!(t.counted_steps(), 2);
    assert_eq!(t.lead_changes(), 0);
    assert_eq!(t.shared_lead(), None);
}

#[test]
fn tally_counts_switches_and_upright() {
    let mut t = ActionTally::new();
    for (k, up) in [(3usize, true), (3, true), (5, false), (5, true), (3, false)] {
        assert!(t.can_record());
        t.record(k, up);
    }
    assert_eq!(t.steps(), 5);
    assert_eq!(t.switches(), 2);
    assert_eq!(t.last_action(), 3);
    assert_eq!(t.upright_steps(), 3);
}

#[test]
fn first_recorded_key_is_no_switch() {
    let mut t = ActionTally::new();
    t.record(7, false);
    assert_eq!(t.switches(), 0);
    assert_eq!(t.last_action(), 7);
    assert_eq!(t.upright_steps(), 0);
}

#[test]
fn touchdown_needs_a_new_contact() {
    assert!(touchdown([false, false], [true, false]));
    assert!(touchdown([true, false], [true, true]));
    assert!(!touchdown([true, true], [true, true]));
    assert!(!touchdown([true, false], [false, false]));
}

#[test]
fn lead_counts_stay_consistent() {
    let mut rng = evogait::rng::XorShift64::new(17);
    let mut t = LeadTracker::new();
    for _ in 0..500 {
        let x = rng.next_u64();
        let lead = match x % 3 {
            0 => Lead::Left,
            1 => Lead::Right,
            _ => Lead::Neutral,
        };
        // Long runs so leads get held.
        for _ in 0..(x % 9) {
            t.observe(lead, (x >> 8) % 4 != 0);
        }
        assert_eq!(t.left_lead_steps() + t.right_lead_steps(), t.counted_steps());
        assert!(t.lead_changes() <= t.counted_steps());
        if let Some((num, den)) = t.shared_lead() {
            assert!(2 * num <= den);
        }
    }
}

#[test]
fn tally_switches_count_key_changes() {
    let keys = [3usize, 3, 5, 5, 3, 8, 8, 1];
    let mut t = ActionTally::new();
    for (i, k) in keys.iter().enumerate() {
        t.record(*k, i % 3 == 0);
    }
    let changes = keys.windows(2).filter(|w| w[0] != w[1]).count();
    assert_eq!(t.switches(), changes);
    assert_eq!(t.switches(), 4);
    assert_eq!(t.last_action(), 1);
    assert_eq!(t.upright_steps(), 3);
    assert_eq!(t.steps(), 8);
}
