//! The drift state of each endpoint, with hysteresis: a state changes only
//! once the score has stayed in another band for the hysteresis period.
use vstd::prelude::*;
use vstd::string::*;
use crate::keyed::KeyedMap;
use crate::clock::now_micros;

verus! {

/// How far an endpoint's two targets have drifted apart.
#[derive(Debug, Clone, Copy, PartialEq, Eq, Structural)]
pub enum DriftState {
    Unknown,
    Equivalent,
    Drifting,
    Diverged,
}

impl DriftState {
    /// The state's name, as stored.
    pub fn label(&self) -> (r: &'static str)
        ensures
            r@ == match *self {
                DriftState::Unknown => "Unknown"@,
                DriftState::Equivalent => "Equivalent"@,
                DriftState::Drifting => "Drifting"@,
                DriftState::Diverged => "Diverged"@,
            },
    {
        match self {
            DriftState::Unknown => "Unknown",
            DriftState::Equivalent => "Equivalent",
            DriftState::Drifting => "Drifting",
            DriftState::Diverged => "Diverged",
        }
    }
}

/// The state of one endpoint: since when it holds, and since when the score
/// has been in another band (times in microseconds).
#[derive(Debug, Clone, Copy)]
pub struct StateRecord {
    pub state: DriftState,
    pub entered_at: u64,
    pub threshold_crossed_at: Option<u64>,
}

/// A change of state of one endpoint.
#[derive(Debug)]
pub struct StateTransition {
    pub endpoint: String,
    pub from: DriftState,
    pub to: DriftState,
}

/// How long the score must stay in another band before the state follows:
/// 30 seconds, in microseconds.
pub const HYSTERESIS_US: u64 = 30_000_000;

/// Below this many samples an endpoint's state is not judged.
pub const STATE_MIN_SAMPLES: u64 = 50;

/// Whether at least `period` has passed from `since` to `now` (no time has
/// passed when `now` is earlier).
pub open spec fn elapsed_at_least(since: u64, now: u64, period: u64) -> bool {
    now >= since && now - since >= period
}

/// One update of an endpoint's record (`None` when it has none yet) with the
/// band `target` of its score over `samples` samples at time `now`: the new
/// record and the transition `(from, to)`, if any.
pub open spec fn stepped(
    cur: Option<StateRecord>,
    samples: u64,
    target: DriftState,
    now: u64,
    min_samples: u64,
    hysteresis: u64,
) -> (StateRecord, Option<(DriftState, DriftState)>) {
    if samples < min_samples {
        match cur {
            Some(c) => (c, None),
            None => (StateRecord { state: DriftState::Unknown, entered_at: now, threshold_crossed_at: None }, None),
        }
    } else {
        let c = match cur {
            Some(c) => c,
            None => StateRecord { state: DriftState::Equivalent, entered_at: now, threshold_crossed_at: None },
        };
        if target == c.state {
            (StateRecord { threshold_crossed_at: None, ..c }, None)
        } else {
            match c.threshold_crossed_at {
                None => (StateRecord { threshold_crossed_at: Some(now), ..c }, None),
                Some(t) => if elapsed_at_least(t, now, hysteresis) {
                    (StateRecord { state: target, entered_at: now, threshold_crossed_at: None }, Some((c.state, target)))
                } else {
                    (c, None)
                },
            }
        }
    }
}

/// The outcome of one update of `endpoint` at time `now` (see `stepped`):
/// `before` and `after` are the machine around the call and `r` its result.
pub open spec fn updated_at(
    before: StateMachine,
    after: StateMachine,
    endpoint: Seq<char>,
    samples: u64,
    target: DriftState,
    now: u64,
    r: Option<StateTransition>,
) -> bool {
    let s = stepped(before.record(endpoint), samples, target, now, before.min_samples, before.hysteresis_us);
    &&& after.records.view() == before.records.view().insert(endpoint, s.0)
    &&& match s.1 {
        Some((from, to)) => r matches Some(t) && t.endpoint@ == endpoint && t.from == from && t.to == to,
        None => r is None,
    }
}

/// The state of every endpoint seen so far.
pub struct StateMachine {
    pub records: KeyedMap<StateRecord>,
    pub hysteresis_us: u64,
    pub min_samples: u64,
}

impl StateMachine {
    /// The records are well formed, and the hysteresis and sample threshold
    /// are `HYSTERESIS_US` and `STATE_MIN_SAMPLES`.
    pub open spec fn wf(&self) -> bool {
        &&& self.records.wf()
        &&& self.hysteresis_us == HYSTERESIS_US
        &&& self.min_samples == STATE_MIN_SAMPLES
    }

    /// The record of `endpoint`, if it has one.
    pub open spec fn record(&self, endpoint: Seq<char>) -> Option<StateRecord> {
        if self.records.view().dom().contains(endpoint) {
            Some(self.records.view()[endpoint])
        } else {
            None
        }
    }

    /// No endpoint known yet; a 30 s hysteresis and 50 samples needed.
    pub fn new() -> (r: StateMachine)
        ensures
            r.wf(),
            r.records.view() == Map::<Seq<char>, StateRecord>::empty(),
            r.hysteresis_us == HYSTERESIS_US,
            r.min_samples == STATE_MIN_SAMPLES,
    {
        StateMachine { records: KeyedMap::new(), hysteresis_us: HYSTERESIS_US, min_samples: STATE_MIN_SAMPLES }
    }

    /// Updates `endpoint` with the band `target` of its latest score over
    /// `samples` samples, at time `now` (see `stepped`); returns the
    /// transition when the state changes.
    pub fn update_at(&mut self, endpoint: &str, samples: u64, target: DriftState, now: u64) -> (r: Option<StateTransition>)
        requires
            old(self).wf(),
        ensures
            final(self).wf(),
            final(self).hysteresis_us == old(self).hysteresis_us,
            final(self).min_samples == old(self).min_samples,
            updated_at(*old(self), *final(self), endpoint@, samples, target, now, r),
    {
        let cur = match self.records.get(endpoint) {
            Some(c) => Some(*c),
            None => None,
        };
        if samples < self.min_samples {
            let rec = match cur {
                Some(c) => c,
                None => StateRecord { state: DriftState::Unknown, entered_at: now, threshold_crossed_at: None },
            };
            self.records.put(endpoint, rec);
            return None;
        }
        let c = match cur {
            Some(c) => c,
            None => StateRecord { state: DriftState::Equivalent, entered_at: now, threshold_crossed_at: None },
        };
        if target == c.state {
            self.records.put(endpoint, StateRecord { threshold_crossed_at: None, ..c });
            return None;
        }
        match c.threshold_crossed_at {
            None => {
                self.records.put(endpoint, StateRecord { threshold_crossed_at: Some(now), ..c });
                None
            },
            Some(t) => {
                if now >= t && now - t >= self.hysteresis_us {
                    self.records.put(endpoint, StateRecord { state: target, entered_at: now, threshold_crossed_at: None });
                    Some(StateTransition { endpoint: endpoint.to_string(), from: c.state, to: target })
                } else {
                    self.records.put(endpoint, c);
                    None
                }
            },
        }
    }

    /// `update_at` at the current time.
    pub fn update(&mut self, endpoint: &str, samples: u64, target: DriftState) -> (r: Option<StateTransition>)
        requires
            old(self).wf(),
        ensures
            final(self).wf(),
            final(self).hysteresis_us == old(self).hysteresis_us,
            final(self).min_samples == old(self).min_samples,
            exists|now: u64| updated_at(*old(self), *final(self), endpoint@, samples, target, now, r),
    {
        let now = now_micros();
        self.update_at(endpoint, samples, target, now)
    }
}

// ---------------------------------------------------------------------------
// Laws
// ---------------------------------------------------------------------------

/// A state changes only to the band of the latest score, on a record that
/// had seen another band at least the hysteresis period earlier, and only
/// with enough samples.
pub proof fn law_transition_needs_hysteresis(
    cur: Option<StateRecord>,
    samples: u64,
    target: DriftState,
    now: u64,
    min_samples: u64,
    hysteresis: u64,
)
    ensures
        stepped(cur, samples, target, now, min_samples, hysteresis).1 matches Some((from, to)) ==> {
            &&& samples >= min_samples
            &&& to == target
            &&& from != to
            &&& cur is Some
            &&& cur->0.state == from
            &&& cur->0.threshold_crossed_at is Some
            &&& elapsed_at_least(cur->0.threshold_crossed_at->0, now, hysteresis)
        },
{
}

/// A score back in the band of the current state clears the pending
/// crossing, so the hysteresis period starts over at the next crossing.
pub proof fn law_return_resets_clock(
    cur: StateRecord,
    samples: u64,
    now: u64,
    min_samples: u64,
    hysteresis: u64,
)
    requires
        samples >= min_samples,
    ensures
        stepped(Some(cur), samples, cur.state, now, min_samples, hysteresis) == (StateRecord { threshold_crossed_at: None, ..cur }, None::<(DriftState, DriftState)>),
{
}

/// No flapping: from a record with no pending crossing, two updates less than
/// the hysteresis period apart never change the state, whatever the scores.
pub proof fn law_no_change_within_hysteresis(
    cur: Option<StateRecord>,
    samples1: u64,
    target1: DriftState,
    t1: u64,
    samples2: u64,
    target2: DriftState,
    t2: u64,
    min_samples: u64,
    hysteresis: u64,
)
    requires
        cur matches Some(c) ==> c.threshold_crossed_at is None,
        t1 <= t2,
        t2 - t1 < hysteresis,
    ensures
        ({
            let first = stepped(cur, samples1, target1, t1, min_samples, hysteresis);
            let second = stepped(Some(first.0), samples2, target2, t2, min_samples, hysteresis);
            &&& first.1 is None
            &&& second.1 is None
            &&& second.0.state == first.0.state
            &&& (cur matches Some(c) ==> first.0.state == c.state)
        }),
{
}

/// Endpoints with too few samples keep their state (`Unknown` when new).
pub proof fn law_few_samples_keep_state(
    cur: Option<StateRecord>,
    samples: u64,
    target: DriftState,
    now: u64,
    min_samples: u64,
    hysteresis: u64,
)
    requires
        samples < min_samples,
    ensures
        ({
            let s = stepped(cur, samples, target, now, min_samples, hysteresis);
            &&& s.1 is None
            &&& s.0.state == match cur {
                Some(c) => c.state,
                None => DriftState::Unknown,
            }
        }),
{
}

// ---------------------------------------------------------------------------
// Laws over a history of updates
// ---------------------------------------------------------------------------

/// One update of an endpoint: the band of its score, over how many samples,
/// at what time (the arguments of `StateMachine::update_at`, which takes the
/// step `stepped` with the machine's fixed sample threshold and hysteresis).
pub struct ScoreUpdate {
    pub samples: u64,
    pub target: DriftState,
    pub now: u64,
}

/// The record of an endpoint after the updates `us`, in order, starting from
/// `cur`.
pub open spec fn record_after(
    cur: Option<StateRecord>,
    us: Seq<ScoreUpdate>,
    min_samples: u64,
    hysteresis: u64,
) -> Option<StateRecord>
    decreases us.len(),
{
    if us.len() == 0 {
        cur
    } else {
        let u = us.last();
        Some(stepped(record_after(cur, us.drop_last(), min_samples, hysteresis), u.samples, u.target, u.now, min_samples, hysteresis).0)
    }
}

/// The transition the last of the updates `us` makes, if any.
pub open spec fn last_transition(
    cur: Option<StateRecord>,
    us: Seq<ScoreUpdate>,
    min_samples: u64,
    hysteresis: u64,
) -> Option<(DriftState, DriftState)> {
    let u = us.last();
    stepped(record_after(cur, us.drop_last(), min_samples, hysteresis), u.samples, u.target, u.now, min_samples, hysteresis).1
}

/// A pending crossing of the record after `us` was set by a judged update
/// `c` whose band differed from the state, and every judged update since
/// has had a band other than the state.
pub open spec fn crossing_held(
    cur: Option<StateRecord>,
    us: Seq<ScoreUpdate>,
    min_samples: u64,
    hysteresis: u64,
) -> bool {
    match record_after(cur, us, min_samples, hysteresis) {
        Some(r) => match r.threshold_crossed_at {
            Some(t) => exists|c: int|
                #![trigger us[c]]
                {
                    &&& 0 <= c < us.len()
                    &&& us[c].now == t
                    &&& us[c].samples >= min_samples
                    &&& forall|j: int| c <= j < us.len() && (#[trigger] us[j]).samples >= min_samples ==> us[j].target != r.state
                },
            None => true,
        },
        None => true,
    }
}

/// The witness of a held crossing carries over to one more update that
/// leaves the record as it was, or that is not judged.
proof fn lemma_crossing_held_extends(d: Seq<ScoreUpdate>, u: ScoreUpdate, r: StateRecord, t: u64, min_samples: u64)
    requires
        u.samples >= min_samples ==> u.target != r.state,
        exists|c: int|
            #![trigger d[c]]
            {
                &&& 0 <= c < d.len()
                &&& d[c].now == t
                &&& d[c].samples >= min_samples
                &&& forall|j: int| c <= j < d.len() && (#[trigger] d[j]).samples >= min_samples ==> d[j].target != r.state
            },
    ensures
        exists|c: int|
            #![trigger d.push(u)[c]]
            {
                &&& 0 <= c < d.push(u).len()
                &&& d.push(u)[c].now == t
                &&& d.push(u)[c].samples >= min_samples
                &&& forall|j: int|
                    c <= j < d.push(u).len() && (#[trigger] d.push(u)[j]).samples >= min_samples ==> d.push(u)[j].target != r.state
            },
{
    let us = d.push(u);
    let c = choose|c: int|
        #![trigger d[c]]
        {
            &&& 0 <= c < d.len()
            &&& d[c].now == t
            &&& d[c].samples >= min_samples
            &&& forall|j: int| c <= j < d.len() && (#[trigger] d[j]).samples >= min_samples ==> d[j].target != r.state
        };
    assert(us[c] == d[c]);
    assert forall|j: int| c <= j < us.len() && (#[trigger] us[j]).samples >= min_samples implies us[j].target != r.state by {
        if j < d.len() {
            assert(us[j] == d[j]);
        } else {
            assert(us[j] == u);
        }
    }
}

proof fn lemma_crossing_held(
    cur: Option<StateRecord>,
    us: Seq<ScoreUpdate>,
    min_samples: u64,
    hysteresis: u64,
)
    requires
        cur matches Some(c) ==> c.threshold_crossed_at is None,
    ensures
        crossing_held(cur, us, min_samples, hysteresis),
    decreases us.len(),
{
    if us.len() > 0 {
        let d = us.drop_last();
        let u = us.last();
        assert(d.push(u) =~= us);
        lemma_crossing_held(cur, d, min_samples, hysteresis);
        let prev = record_after(cur, d, min_samples, hysteresis);
        let step = stepped(prev, u.samples, u.target, u.now, min_samples, hysteresis);
        let r = step.0;
        assert(record_after(cur, us, min_samples, hysteresis) == Some(r));
        if let Some(t) = r.threshold_crossed_at {
            let c0 = match prev {
                Some(c) => c,
                None => StateRecord { state: DriftState::Equivalent, entered_at: u.now, threshold_crossed_at: None },
            };
            if u.samples < min_samples {
                assert(prev is Some && r == prev->0);
                lemma_crossing_held_extends(d, u, r, t, min_samples);
            } else if c0.threshold_crossed_at is None {
                assert(r.state == c0.state && u.target != c0.state && t == u.now);
                let n = us.len() - 1;
                assert(us[n] == u);
                assert forall|j: int| n <= j < us.len() && (#[trigger] us[j]).samples >= min_samples implies us[j].target
                    != r.state by {
                    assert(j == n);
                }
            } else {
                assert(prev is Some && r == prev->0 && u.target != r.state);
                lemma_crossing_held_extends(d, u, r, t, min_samples);
            }
        }
    }
}

/// No transition without a held crossing: starting from a record with no
/// pending crossing (or none at all), an update changes the state from `S`
/// only when an earlier judged update (one with enough samples), at least
/// the hysteresis period before it, had a band other than `S`, and every
/// judged update since has had a band other than `S` too.
pub proof fn law_transition_needs_held_crossing(
    cur: Option<StateRecord>,
    us: Seq<ScoreUpdate>,
    min_samples: u64,
    hysteresis: u64,
)
    requires
        us.len() > 0,
        cur matches Some(c) ==> c.threshold_crossed_at is None,
    ensures
        last_transition(cur, us, min_samples, hysteresis) matches Some((from, to)) ==> exists|c: int|
            #![trigger us[c]]
            {
                &&& 0 <= c < us.len() - 1
                &&& us[c].samples >= min_samples
                &&& elapsed_at_least(us[c].now, us.last().now, hysteresis)
                &&& forall|j: int| c <= j < us.len() && (#[trigger] us[j]).samples >= min_samples ==> us[j].target != from
                &&& to == us.last().target
            },
{
    let d = us.drop_last();
    lemma_crossing_held(cur, d, min_samples, hysteresis);
    let n = us.len() - 1;
    assert(us[n] == us.last());
    if let Some((from, to)) = last_transition(cur, us, min_samples, hysteresis) {
        let prev = record_after(cur, d, min_samples, hysteresis)->0;
        let t = prev.threshold_crossed_at->0;
        let c = choose|c: int|
            #![trigger d[c]]
            {
                &&& 0 <= c < d.len()
                &&& d[c].now == t
                &&& d[c].samples >= min_samples
                &&& forall|j: int| c <= j < d.len() && (#[trigger] d[j]).samples >= min_samples ==> d[j].target != prev.state
            };
        assert(us[c] == d[c]);
        assert forall|j: int| c <= j < us.len() && (#[trigger] us[j]).samples >= min_samples implies us[j].target != from by {
            if j < n {
                assert(us[j] == d[j]);
            }
        }
    }
}

/// A crossing that holds makes the transition: from a record in state `S`
/// with no pending crossing, if the first update is judged with a band other
/// than `S`, every judged update has a band other than `S`, and the last
/// update is the first judged one at least the hysteresis period after the
/// first, then the last update changes the state from `S` to its band, and
/// no earlier one changes it.
pub proof fn law_held_crossing_makes_transition(
    cur: StateRecord,
    us: Seq<ScoreUpdate>,
    min_samples: u64,
    hysteresis: u64,
)
    requires
        us.len() > 1,
        cur.threshold_crossed_at is None,
        us[0].samples >= min_samples,
        forall|j: int| 0 <= j < us.len() && (#[trigger] us[j]).samples >= min_samples ==> us[j].target != cur.state,
        forall|j: int|
            0 < j < us.len() - 1 && (#[trigger] us[j]).samples >= min_samples ==> !elapsed_at_least(us[0].now, us[j].now, hysteresis),
        us.last().samples >= min_samples,
        elapsed_at_least(us[0].now, us.last().now, hysteresis),
    ensures
        last_transition(Some(cur), us, min_samples, hysteresis) == Some((cur.state, us.last().target)),
        record_after(Some(cur), us.drop_last(), min_samples, hysteresis) == Some(
            StateRecord { threshold_crossed_at: Some(us[0].now), ..cur },
        ),
{
    lemma_crossing_pending(cur, us, min_samples, hysteresis, us.len() - 1);
}

proof fn lemma_crossing_pending(cur: StateRecord, us: Seq<ScoreUpdate>, min_samples: u64, hysteresis: u64, m: int)
    requires
        1 <= m < us.len(),
        cur.threshold_crossed_at is None,
        us[0].samples >= min_samples,
        forall|j: int| 0 <= j < us.len() && (#[trigger] us[j]).samples >= min_samples ==> us[j].target != cur.state,
        forall|j: int|
            0 < j < us.len() - 1 && (#[trigger] us[j]).samples >= min_samples ==> !elapsed_at_least(us[0].now, us[j].now, hysteresis),
    ensures
        record_after(Some(cur), us.take(m), min_samples, hysteresis) == Some(
            StateRecord { threshold_crossed_at: Some(us[0].now), ..cur },
        ),
    decreases m,
{
    let p = us.take(m);
    assert(p.drop_last() =~= us.take(m - 1));
    assert(p.last() == us[m - 1]);
    if m == 1 {
        assert(us.take(0) =~= Seq::<ScoreUpdate>::empty());
        assert(us[0].target != cur.state);
    } else {
        lemma_crossing_pending(cur, us, min_samples, hysteresis, m - 1);
        let u = us[m - 1];
        if u.samples >= min_samples {
            assert(u.target != cur.state);
            assert(!elapsed_at_least(us[0].now, u.now, hysteresis));
        }
    }
}

} // verus!
