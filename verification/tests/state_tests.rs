use driftmap::state::{DriftState, StateMachine, HYSTERESIS_US, STATE_MIN_SAMPLES};

const S: u64 = 1_000_000;

#[test]
fn few_samples_stay_unknown() {
    let mut m = StateMachine::new();
    assert!(m.update_at("e", 10, DriftState::Diverged, 0).is_none());
    assert!(m.update_at("e", 10, DriftState::Diverged, 100 * S).is_none());
    assert_eq!(m.records.get("e").unwrap().state, DriftState::Unknown);
}

#[test]
fn a_band_must_hold_for_the_hysteresis_period() {
    let mut m = StateMachine::new();
    assert_eq!(m.hysteresis_us, HYSTERESIS_US);
    assert_eq!(m.min_samples, STATE_MIN_SAMPLES);
    assert!(m.update_at("e", 50, DriftState::Equivalent, 0).is_none());
    assert!(m.update_at("e", 50, DriftState::Diverged, 1 * S).is_none());
    assert_eq!(m.records.get("e").unwrap().threshold_crossed_at, Some(1 * S));
    assert!(m.update_at("e", 50, DriftState::Diverged, 30 * S).is_none());
    let t = m.update_at("e", 50, DriftState::Diverged, 31 * S).unwrap();
    assert_eq!(t.endpoint, "e");
    assert_eq!(t.from, DriftState::Equivalent);
    assert_eq!(t.to, DriftState::Diverged);
    let r = m.records.get("e").unwrap();
    assert_eq!(r.state, DriftState::Diverged);
    assert_eq!(r.entered_at, 31 * S);
    assert_eq!(r.threshold_crossed_at, None);
}

#[test]
fn returning_to_the_band_resets_the_clock() {
    let mut m = StateMachine::new();
    assert!(m.update_at("e", 60, DriftState::Drifting, 0).is_none());
    assert!(m.update_at("e", 60, DriftState::Equivalent, 20 * S).is_none());
    assert_eq!(m.records.get("e").unwrap().threshold_crossed_at, None);
    assert!(m.update_at("e", 60, DriftState::Drifting, 25 * S).is_none());
    assert!(m.update_at("e", 60, DriftState::Drifting, 50 * S).is_none());
    let t = m.update_at("e", 60, DriftState::Drifting, 55 * S).unwrap();
    assert_eq!((t.from, t.to), (DriftState::Equivalent, DriftState::Drifting));
}

#[test]
fn unknown_endpoints_leave_unknown_after_hysteresis() {
    let mut m = StateMachine::new();
    assert!(m.update_at("e", 1, DriftState::Equivalent, 0).is_none());
    assert!(m.update_at("e", 50, DriftState::Equivalent, 1 * S).is_none());
    let t = m.update_at("e", 50, DriftState::Equivalent, 40 * S).unwrap();
    assert_eq!((t.from, t.to), (DriftState::Unknown, DriftState::Equivalent));
}

#[test]
fn clock_going_backwards_does_not_transition() {
    let mut m = StateMachine::new();
    assert!(m.update_at("e", 50, DriftState::Diverged, 100 * S).is_none());
    assert!(m.update_at("e", 50, DriftState::Diverged, 1 * S).is_none());
}

#[test]
fn state_labels() {
    assert_eq!(DriftState::Unknown.label(), "Unknown");
    assert_eq!(DriftState::Equivalent.label(), "Equivalent");
    assert_eq!(DriftState::Drifting.label(), "Drifting");
    assert_eq!(DriftState::Diverged.label(), "Diverged");
}

#[test]
fn update_at_the_current_time() {
    let mut m = StateMachine::new();
    assert!(m.update("e", 50, DriftState::Diverged).is_none());
    assert!(m.update("e", 50, DriftState::Diverged).is_none());
    assert_eq!(m.records.get("e").unwrap().state, DriftState::Equivalent);
    assert!(m.records.get("e").unwrap().threshold_crossed_at.is_some());
}

#[test]
fn a_held_crossing_turns_into_the_latest_band() {
    let mut m = StateMachine::new();
    assert!(m.update_at("e", 50, DriftState::Equivalent, 0).is_none());
    assert!(m.update_at("e", 50, DriftState::Diverged, 1 * S).is_none());
    assert!(m.update_at("e", 50, DriftState::Drifting, 20 * S).is_none());
    assert!(m.update_at("e", 10, DriftState::Equivalent, 40 * S).is_none());
    let t = m.update_at("e", 50, DriftState::Drifting, 41 * S).unwrap();
    assert_eq!((t.from, t.to), (DriftState::Equivalent, DriftState::Drifting));
}
