//! Integer bookkeeping of the feedback key runner: which leg leads, how
//! long a lead has been held, and how often the pressed key switched.
use vstd::prelude::*;

verus! {

/// A new lead counts only if held this many steps (0.2 s): rejects jitter.
pub const LEAD_HOLD_STEPS: usize = 5;

/// Which foot is ahead, after the dead band has been applied.
#[derive(Clone, Copy, Debug, PartialEq, Eq, Structural)]
pub enum Lead {
    Left,
    Right,
    Neutral,
}

/// The abstract state of a `LeadTracker`.
pub struct LeadState {
    pub lead: Lead,
    pub lead_run: nat,
    pub counted_lead: Lead,
    pub lead_changes: nat,
    pub left_lead_steps: nat,
    pub right_lead_steps: nat,
    pub counted_steps: nat,
}

/// The state after one observation of the (dead-banded) lead `cur`, taken
/// while the torso was `moving` forward or not.
pub open spec fn lead_step(s: LeadState, cur: Lead, moving: bool) -> LeadState {
    if cur == Lead::Neutral || !moving {
        LeadState { lead_run: 0, ..s }
    } else {
        let run: nat = if cur == s.lead { s.lead_run + 1 } else { 1 };
        let confirm = run == LEAD_HOLD_STEPS;
        let counting = run >= LEAD_HOLD_STEPS;
        LeadState {
            lead: cur,
            lead_run: run,
            counted_lead: if confirm { cur } else { s.counted_lead },
            lead_changes: if confirm && s.counted_steps > 0 && cur != s.counted_lead {
                s.lead_changes + 1
            } else {
                s.lead_changes
            },
            left_lead_steps: if counting && cur == Lead::Left {
                s.left_lead_steps + 1
            } else {
                s.left_lead_steps
            },
            right_lead_steps: if counting && cur == Lead::Right {
                s.right_lead_steps + 1
            } else {
                s.right_lead_steps
            },
            counted_steps: if counting { s.counted_steps + 1 } else { s.counted_steps },
        }
    }
}

/// The state after a whole sequence of observations, in order.
pub open spec fn lead_feed(s: LeadState, obs: Seq<(Lead, bool)>) -> LeadState
    decreases obs.len(),
{
    if obs.len() == 0 {
        s
    } else {
        lead_step(lead_feed(s, obs.drop_last()), obs.last().0, obs.last().1)
    }
}

/// The state of a fresh tracker.
pub open spec fn lead_start() -> LeadState {
    LeadState {
        lead: Lead::Neutral,
        lead_run: 0,
        counted_lead: Lead::Neutral,
        lead_changes: 0,
        left_lead_steps: 0,
        right_lead_steps: 0,
        counted_steps: 0,
    }
}

/// What holds of every state a tracker reaches from `lead_start`.
pub open spec fn lead_consistent(s: LeadState) -> bool {
    &&& s.left_lead_steps + s.right_lead_steps == s.counted_steps
    &&& s.lead_changes <= s.counted_steps
    &&& (s.counted_steps == 0 <==> s.counted_lead == Lead::Neutral)
    &&& (s.lead_run > 0 ==> s.lead != Lead::Neutral)
    &&& (s.lead_run >= LEAD_HOLD_STEPS ==> s.counted_lead == s.lead)
}

/// Shared lead time as a fraction `(min(left, right), counted)`, withheld
/// (`None`) until at least two debounced lead changes were seen.
pub open spec fn shared_lead_of(s: LeadState) -> Option<(nat, nat)> {
    if s.lead_changes < 2 || s.counted_steps == 0 {
        None
    } else {
        Some(
            (
                if s.left_lead_steps <= s.right_lead_steps {
                    s.left_lead_steps
                } else {
                    s.right_lead_steps
                },
                s.counted_steps,
            ),
        )
    }
}

/// One observation keeps the tracker consistent.
pub proof fn lemma_lead_step_consistent(s: LeadState, cur: Lead, moving: bool)
    requires
        lead_consistent(s),
    ensures
        lead_consistent(lead_step(s, cur, moving)),
{
}

/// Every state reached from a fresh tracker is consistent: the left and
/// right lead counts add up to the counted steps, and lead changes never
/// outnumber counted steps.
pub proof fn lemma_lead_feed_consistent(obs: Seq<(Lead, bool)>)
    ensures
        lead_consistent(lead_feed(lead_start(), obs)),
    decreases obs.len(),
{
    if obs.len() > 0 {
        lemma_lead_feed_consistent(obs.drop_last());
        lemma_lead_step_consistent(
            lead_feed(lead_start(), obs.drop_last()),
            obs.last().0,
            obs.last().1,
        );
    }
}

/// Rocking in place earns nothing: observations taken while not moving
/// change no counted statistic, only reset the current run.
pub proof fn lemma_still_feed_counts_nothing(s: LeadState, obs: Seq<(Lead, bool)>)
    requires
        forall|i: int| 0 <= i < obs.len() ==> !(#[trigger] obs[i]).1,
    ensures
        lead_feed(s, obs).lead_changes == s.lead_changes,
        lead_feed(s, obs).counted_steps == s.counted_steps,
        lead_feed(s, obs).left_lead_steps == s.left_lead_steps,
        lead_feed(s, obs).right_lead_steps == s.right_lead_steps,
        lead_feed(s, obs).counted_lead == s.counted_lead,
    decreases obs.len(),
{
    if obs.len() > 0 {
        let init = obs.drop_last();
        assert forall|i: int| 0 <= i < init.len() implies !(#[trigger] init[i]).1 by {
            assert(init[i] == obs[i]);
        }
        lemma_still_feed_counts_nothing(s, init);
        assert(!obs[obs.len() - 1].1);
    }
}

/// Jitter never counts: when every observation names a different lead
/// than the one before it (the first one differing from the tracker's
/// current lead), no lead is ever held long enough to be counted.
pub proof fn lemma_jitter_counts_nothing(s: LeadState, obs: Seq<(Lead, bool)>)
    requires
        s.lead_run < LEAD_HOLD_STEPS,
        obs.len() > 0 ==> obs[0].0 != s.lead,
        forall|i: int, j: int|
            0 <= i && j == i + 1 && j < obs.len() ==> (#[trigger] obs[i]).0 != (#[trigger] obs[j]).0,
    ensures
        lead_feed(s, obs).lead_changes == s.lead_changes,
        lead_feed(s, obs).counted_steps == s.counted_steps,
        lead_feed(s, obs).left_lead_steps == s.left_lead_steps,
        lead_feed(s, obs).right_lead_steps == s.right_lead_steps,
        lead_feed(s, obs).lead_run < LEAD_HOLD_STEPS,
        obs.len() > 0 ==> lead_feed(s, obs).lead_run <= 1,
        obs.len() > 0 ==> (lead_feed(s, obs).lead_run == 0 || lead_feed(s, obs).lead
            == obs.last().0),
    decreases obs.len(),
{
    if obs.len() > 0 {
        let n = obs.len() - 1;
        let init = obs.drop_last();
        assert forall|i: int, j: int|
            0 <= i && j == i + 1 && j < init.len() implies (#[trigger] init[i]).0 != (
            #[trigger] init[j]).0 by {
            assert(init[i] == obs[i]);
            assert(init[j] == obs[j]);
        }
        if init.len() > 0 {
            assert(init[0] == obs[0]);
        }
        lemma_jitter_counts_nothing(s, init);
        let prev = lead_feed(s, init);
        let cur = obs[n].0;
        if n == 0 {
            assert(init.len() == 0);
            assert(prev == s);
        } else {
            assert(init.last() == obs[n - 1]);
            assert(obs[n - 1].0 != obs[n].0);
        }
        assert(cur == prev.lead ==> prev.lead_run == 0);
        assert(lead_feed(s, obs) == lead_step(prev, cur, obs[n].1));
    }
}

/// The alternation metric of any tracker lies in `0..=1/2`: shared lead
/// time is withheld (zero) below two lead changes, and is otherwise the
/// smaller of the left and right shares of the counted lead steps.
pub proof fn lemma_alternation_bounds(s: LeadState)
    requires
        lead_consistent(s),
    ensures
        s.lead_changes < 2 ==> shared_lead_of(s) is None,
        shared_lead_of(s) matches Some((num, den)) ==> {
            &&& 2 * num <= den
            &&& den == s.counted_steps
            &&& den > 0
            &&& num == s.left_lead_steps || num == s.right_lead_steps
            &&& num <= s.left_lead_steps && num <= s.right_lead_steps
        },
{
}

/// The metric is withheld exactly when fewer than two lead changes were
/// seen: with two or more changes and some counted steps it is the smaller
/// of the left and right lead counts over the counted steps.
pub proof fn lemma_alternation_given_two_changes(s: LeadState)
    requires
        lead_consistent(s),
    ensures
        shared_lead_of(s) is None <==> s.lead_changes < 2,
        s.lead_changes >= 2 ==> shared_lead_of(s) == Some(
            (
                if s.left_lead_steps <= s.right_lead_steps {
                    s.left_lead_steps
                } else {
                    s.right_lead_steps
                },
                s.counted_steps,
            ),
        ),
{
}

/// Debounced lead tracking for the alternation metric.
pub struct LeadTracker {
    lead: Lead,
    lead_run: usize,
    counted_lead: Lead,
    lead_changes: usize,
    left_lead_steps: usize,
    right_lead_steps: usize,
    counted_steps: usize,
}

impl LeadTracker {
    /// The abstract state of this tracker.
    pub closed spec fn state(self) -> LeadState {
        LeadState {
            lead: self.lead,
            lead_run: self.lead_run as nat,
            counted_lead: self.counted_lead,
            lead_changes: self.lead_changes as nat,
            left_lead_steps: self.left_lead_steps as nat,
            right_lead_steps: self.right_lead_steps as nat,
            counted_steps: self.counted_steps as nat,
        }
    }

    #[verifier::type_invariant]
    closed spec fn inv(self) -> bool {
        lead_consistent(self.state())
    }

    pub fn new() -> (r: Self)
        ensures
            r.state() == lead_start(),
            lead_consistent(r.state()),
    {
        LeadTracker {
            lead: Lead::Neutral,
            lead_run: 0,
            counted_lead: Lead::Neutral,
            lead_changes: 0,
            left_lead_steps: 0,
            right_lead_steps: 0,
            counted_steps: 0,
        }
    }

    /// Whether one more observation fits in the counters.
    pub fn can_observe(&self) -> (r: bool)
        ensures
            r == (self.state().lead_run < usize::MAX && self.state().counted_steps < usize::MAX),
    {
        self.lead_run < usize::MAX && self.counted_steps < usize::MAX
    }

    /// Record one observation: the dead-banded lead `cur`, and whether the
    /// torso advances fast enough for the lead to count.
    pub fn observe(&mut self, cur: Lead, moving: bool)
        requires
            old(self).state().lead_run < usize::MAX,
            old(self).state().counted_steps < usize::MAX,
        ensures
            final(self).state() == lead_step(old(self).state(), cur, moving),
            lead_consistent(final(self).state()),
    {
        proof {
            use_type_invariant(&*self);
            lemma_lead_step_consistent(self.state(), cur, moving);
        }
        if cur == Lead::Neutral || !moving {
            self.lead_run = 0;
            return ;
        }
        let run: usize = if cur == self.lead {
            self.lead_run + 1
        } else {
            1
        };
        let confirm = run == LEAD_HOLD_STEPS;
        let changed = confirm && self.counted_steps > 0 && cur != self.counted_lead;
        let counting = run >= LEAD_HOLD_STEPS;
        let lead_changes: usize = if changed {
            self.lead_changes + 1
        } else {
            self.lead_changes
        };
        let counted_lead = if confirm {
            cur
        } else {
            self.counted_lead
        };
        let left: usize = if counting && cur == Lead::Left {
            self.left_lead_steps + 1
        } else {
            self.left_lead_steps
        };
        let right: usize = if counting && cur == Lead::Right {
            self.right_lead_steps + 1
        } else {
            self.right_lead_steps
        };
        let counted: usize = if counting {
            self.counted_steps + 1
        } else {
            self.counted_steps
        };
        *self = LeadTracker {
            lead: cur,
            lead_run: run,
            counted_lead,
            lead_changes,
            left_lead_steps: left,
            right_lead_steps: right,
            counted_steps: counted,
        };
    }

    pub fn lead_changes(&self) -> (r: usize)
        ensures
            r == self.state().lead_changes,
            lead_consistent(self.state()),
    {
        proof {
            use_type_invariant(self);
        }
        self.lead_changes
    }

    pub fn counted_steps(&self) -> (r: usize)
        ensures
            r == self.state().counted_steps,
            lead_consistent(self.state()),
    {
        proof {
            use_type_invariant(self);
        }
        self.counted_steps
    }

    pub fn left_lead_steps(&self) -> (r: usize)
        ensures
            r == self.state().left_lead_steps,
            lead_consistent(self.state()),
    {
        proof {
            use_type_invariant(self);
        }
        self.left_lead_steps
    }

    pub fn right_lead_steps(&self) -> (r: usize)
        ensures
            r == self.state().right_lead_steps,
            lead_consistent(self.state()),
    {
        proof {
            use_type_invariant(self);
        }
        self.right_lead_steps
    }

    /// Shared lead time as `(min(left, right), counted)`: `None` until two
    /// debounced lead changes were seen (sitting centered earns nothing).
    /// The quotient lies in `0..=1/2`.
    pub fn shared_lead(&self) -> (r: Option<(usize, usize)>)
        ensures
            match (r, shared_lead_of(self.state())) {
                (None, None) => true,
                (Some((a, b)), Some((x, y))) => a == x && b == y,
                _ => false,
            },
            r matches Some((num, den)) ==> 2 * num <= den && den > 0,
            self.state().lead_changes < 2 ==> r is None,
            self.state().lead_changes >= 2 && self.state().counted_steps > 0 ==> (r matches Some(
                (num, den),
            ) && den == self.state().counted_steps && num <= self.state().left_lead_steps && num
                <= self.state().right_lead_steps && (num == self.state().left_lead_steps || num
                == self.state().right_lead_steps)),
            lead_consistent(self.state()),
    {
        proof {
            use_type_invariant(self);
        }
        if self.lead_changes < 2 || self.counted_steps == 0 {
            None
        } else {
            let m = if self.left_lead_steps <= self.right_lead_steps {
                self.left_lead_steps
            } else {
                self.right_lead_steps
            };
            Some((m, self.counted_steps))
        }
    }
}

/// A touchdown: some foot touches the track now that did not before.
pub fn touchdown(prev: [bool; 2], now: [bool; 2]) -> (r: bool)
    ensures
        r == ((now[0] && !prev[0]) || (now[1] && !prev[1])),
{
    (now[0] && !prev[0]) || (now[1] && !prev[1])
}

/// The abstract state of an `ActionTally`.
pub struct TallyState {
    pub last_action: nat,
    pub switches: nat,
    pub steps: nat,
    pub upright_steps: nat,
}

/// The state after recording one chosen key and whether the torso was up.
pub open spec fn tally_step(s: TallyState, key: nat, upright: bool) -> TallyState {
    TallyState {
        last_action: if s.steps == 0 || key != s.last_action {
            key
        } else {
            s.last_action
        },
        switches: if s.steps > 0 && key != s.last_action {
            s.switches + 1
        } else {
            s.switches
        },
        steps: s.steps + 1,
        upright_steps: if upright {
            s.upright_steps + 1
        } else {
            s.upright_steps
        },
    }
}

/// What holds of every state a tally reaches from a fresh one: switches
/// are between consecutive steps, and upright steps are steps.
pub open spec fn tally_consistent(s: TallyState) -> bool {
    &&& (s.steps == 0 ==> s.switches == 0)
    &&& (s.steps > 0 ==> s.switches < s.steps)
    &&& s.upright_steps <= s.steps
}

/// Recording a step keeps the tally consistent; in particular the upright
/// fraction `upright_steps / steps` stays within `[0, 1]`.
pub proof fn lemma_tally_step_consistent(s: TallyState, key: nat, upright: bool)
    requires
        tally_consistent(s),
    ensures
        tally_consistent(tally_step(s, key, upright)),
        tally_step(s, key, upright).last_action == key,
{
}

/// The state of a fresh tally.
pub open spec fn tally_start() -> TallyState {
    TallyState { last_action: 0, switches: 0, steps: 0, upright_steps: 0 }
}

/// The state after recording a whole sequence of (key, upright) steps.
pub open spec fn tally_feed(s: TallyState, recs: Seq<(nat, bool)>) -> TallyState
    decreases recs.len(),
{
    if recs.len() == 0 {
        s
    } else {
        tally_step(tally_feed(s, recs.drop_last()), recs.last().0, recs.last().1)
    }
}

/// The number of steps whose key differs from the key of the step before.
pub open spec fn key_changes(recs: Seq<(nat, bool)>) -> nat
    decreases recs.len(),
{
    if recs.len() <= 1 {
        0
    } else {
        key_changes(recs.drop_last()) + if recs.last().0 != recs[recs.len() - 2].0 {
            1nat
        } else {
            0nat
        }
    }
}

/// The number of steps recorded with the torso up.
pub open spec fn upright_count(recs: Seq<(nat, bool)>) -> nat
    decreases recs.len(),
{
    if recs.len() == 0 {
        0
    } else {
        upright_count(recs.drop_last()) + if recs.last().1 {
            1nat
        } else {
            0nat
        }
    }
}

/// Over any sequence of steps recorded by a fresh tally: the steps are
/// counted, the switches are the steps whose key differs from the one
/// before, the last action is the last key, and the upright steps are the
/// steps recorded upright.
pub proof fn lemma_tally_feed_counts(recs: Seq<(nat, bool)>)
    ensures
        tally_feed(tally_start(), recs).steps == recs.len(),
        tally_feed(tally_start(), recs).switches == key_changes(recs),
        tally_feed(tally_start(), recs).upright_steps == upright_count(recs),
        recs.len() > 0 ==> tally_feed(tally_start(), recs).last_action == recs.last().0,
    decreases recs.len(),
{
    if recs.len() > 0 {
        let init = recs.drop_last();
        lemma_tally_feed_counts(init);
        if init.len() > 0 {
            assert(init.last() == recs[recs.len() - 2]);
        }
    }
}

/// Counts of the keys a runner chose: switches between consecutive keys,
/// steps taken, and steps taken with the torso up.
pub struct ActionTally {
    last_action: usize,
    switches: usize,
    steps: usize,
    upright_steps: usize,
}

impl ActionTally {
    /// The abstract state of this tally.
    pub closed spec fn state(self) -> TallyState {
        TallyState {
            last_action: self.last_action as nat,
            switches: self.switches as nat,
            steps: self.steps as nat,
            upright_steps: self.upright_steps as nat,
        }
    }

    #[verifier::type_invariant]
    closed spec fn inv(self) -> bool {
        tally_consistent(self.state())
    }

    pub fn new() -> (r: Self)
        ensures
            r.state() == tally_start(),
    {
        ActionTally { last_action: 0, switches: 0, steps: 0, upright_steps: 0 }
    }

    /// Whether one more step fits in the counters.
    pub fn can_record(&self) -> (r: bool)
        ensures
            r == (self.state().steps < usize::MAX),
    {
        self.steps < usize::MAX
    }

    /// Record the key chosen for this step and whether the torso was up.
    pub fn record(&mut self, key: usize, upright: bool)
        requires
            old(self).state().steps < usize::MAX,
        ensures
            final(self).state() == tally_step(old(self).state(), key as nat, upright),
    {
        proof {
            use_type_invariant(&*self);
            lemma_tally_step_consistent(self.state(), key as nat, upright);
        }
        let switched = self.steps > 0 && key != self.last_action;
        let last_action = if self.steps == 0 || key != self.last_action {
            key
        } else {
            self.last_action
        };
        let switches: usize = if switched {
            self.switches + 1
        } else {
            self.switches
        };
        let upright_steps: usize = if upright {
            self.upright_steps + 1
        } else {
            self.upright_steps
        };
        *self = ActionTally { last_action, switches, steps: self.steps + 1, upright_steps };
    }

    pub fn last_action(&self) -> (r: usize)
        ensures
            r == self.state().last_action,
            tally_consistent(self.state()),
    {
        proof {
            use_type_invariant(self);
        }
        self.last_action
    }

    pub fn switches(&self) -> (r: usize)
        ensures
            r == self.state().switches,
            self.state().steps > 0 ==> r < self.state().steps,
    {
        proof {
            use_type_invariant(self);
        }
        self.switches
    }

    pub fn steps(&self) -> (r: usize)
        ensures
            r == self.state().steps,
            tally_consistent(self.state()),
    {
        proof {
            use_type_invariant(self);
        }
        self.steps
    }

    pub fn upright_steps(&self) -> (r: usize)
        ensures
            r == self.state().upright_steps,
            r <= self.state().steps,
    {
        proof {
            use_type_invariant(self);
        }
        self.upright_steps
    }
}

} // verus!
