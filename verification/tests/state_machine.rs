use apogee::state_machine::{FlightMode, FlightModeMachine, GuardStatus, ModeCommand, TransitionResult};

/// The guard conditions of a vehicle with the given rate limit and health
/// flags, at the given body rate.
fn guard(max_rate_rad_s: f64, attitude_valid: bool, actuators_healthy: bool, rate_rad_s: f64) -> GuardStatus {
    GuardStatus {
        attitude_valid,
        actuators_healthy,
        rate_within_limit: rate_rad_s <= max_rate_rad_s,
    }
}

/// Nominal operations guard (rate limit 0.5 rad/s, all healthy).
fn nominal(rate: f64) -> GuardStatus {
    guard(0.5, true, true, rate)
}

/// Safe-mode guard (rate limit 5 rad/s, attitude and actuators not required).
fn safe(rate: f64) -> GuardStatus {
    guard(5.0, false, false, rate)
}

#[test]
fn test_fault_to_safe_always_allowed() {
    let mut sm = FlightModeMachine::new(FlightMode::Idle);
    assert_eq!(sm.command(ModeCommand::Fault, &safe(100.0)), TransitionResult::Accepted);
    assert_eq!(sm.current(), FlightMode::Safe);
}

#[test]
fn test_resume_requires_valid_guard() {
    let mut sm = FlightModeMachine::new(FlightMode::Safe);
    let bad = guard(0.5, false, true, 0.0);
    assert_eq!(sm.command(ModeCommand::Resume, &bad), TransitionResult::Rejected);
    assert_eq!(sm.command(ModeCommand::Resume, &nominal(0.0)), TransitionResult::Accepted);
}

#[test]
fn test_maneuver_rejected_if_rate_too_high() {
    let mut sm = FlightModeMachine::new(FlightMode::Idle);
    assert_eq!(
        sm.command(ModeCommand::SetMode(FlightMode::Maneuver), &nominal(1.0)),
        TransitionResult::Rejected
    );
    assert_eq!(
        sm.command(ModeCommand::SetMode(FlightMode::Maneuver), &nominal(0.1)),
        TransitionResult::Accepted
    );
}

#[test]
fn flight_mode_noops_and_names() {
    let mut sm = FlightModeMachine::new(FlightMode::Point);
    assert_eq!(sm.command(ModeCommand::Resume, &nominal(0.0)), TransitionResult::NoOp);
    assert_eq!(sm.command(ModeCommand::SetMode(FlightMode::Point), &safe(9.0)), TransitionResult::NoOp);
    assert_eq!(sm.current(), FlightMode::Point);
    assert_eq!(sm.command(ModeCommand::Fault, &nominal(0.0)), TransitionResult::Accepted);
    assert_eq!(sm.command(ModeCommand::Fault, &nominal(0.0)), TransitionResult::NoOp);
    assert_eq!(sm.current(), FlightMode::Safe);
    assert_eq!(sm.command(ModeCommand::SetMode(FlightMode::Coast), &safe(0.0)), TransitionResult::Rejected);
    assert_eq!(sm.current(), FlightMode::Safe);
    assert_eq!(FlightMode::default(), FlightMode::Idle);
    assert_eq!(FlightMode::Maneuver.name(), "Maneuver");
    assert_eq!(FlightMode::Safe.name(), "Safe");
}
