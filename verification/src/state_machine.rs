//! Flight-mode state machine for spacecraft GNC.
//!
//! Modes represent coarse operational states. Transitions are guarded by
//! safety conditions (rate limits, attitude validity, actuator health).
use vstd::prelude::*;
use vstd::string::StringExecFns;

verus! {

/// High-level spacecraft flight mode.
#[derive(Debug, Clone, Copy, PartialEq, Eq, Hash, Structural)]
pub enum FlightMode {
    /// No active attitude command; hold current attitude if possible.
    Idle,
    /// Execute a pre-planned attitude maneuver (slew).
    Maneuver,
    /// Track a target in body or inertial frame.
    Point,
    /// Spin-stabilized or torque-free coasting.
    Coast,
    /// Fault-driven safe mode: sun-point, slow spin, minimal actuation.
    Safe,
}

/// The display name of a mode.
pub open spec fn mode_name(m: FlightMode) -> Seq<char> {
    match m {
        FlightMode::Idle => "Idle"@,
        FlightMode::Maneuver => "Maneuver"@,
        FlightMode::Point => "Point"@,
        FlightMode::Coast => "Coast"@,
        FlightMode::Safe => "Safe"@,
    }
}

impl Default for FlightMode {
    /// The default mode is `Idle`.
    fn default() -> (m: Self)
        ensures
            m == FlightMode::Idle,
    {
        FlightMode::Idle
    }
}

impl FlightMode {
    /// The display name of the mode ("Idle", "Maneuver", ...).
    pub fn name(&self) -> (s: String)
        ensures
            s@ == mode_name(*self),
    {
        match self {
            FlightMode::Idle => String::from_str("Idle"),
            FlightMode::Maneuver => String::from_str("Maneuver"),
            FlightMode::Point => String::from_str("Point"),
            FlightMode::Coast => String::from_str("Coast"),
            FlightMode::Safe => String::from_str("Safe"),
        }
    }
}

/// Transition request.
#[derive(Debug, Clone, Copy, PartialEq, Eq, Structural)]
pub enum ModeCommand {
    /// Manually command a mode.
    SetMode(FlightMode),
    /// Enter safe mode because of fault(s).
    Fault,
    /// Resume normal operations from safe mode once conditions are met.
    Resume,
}

/// State machine result.
#[derive(Debug, Clone, Copy, PartialEq, Eq, Structural)]
pub enum TransitionResult {
    /// Transition accepted.
    Accepted,
    /// Transition rejected by guard; current mode remains.
    Rejected,
    /// Already in target mode.
    NoOp,
}

/// The vehicle health conditions that guard a transition, as evaluated at
/// the time of the command.
#[derive(Debug, Clone, Copy, PartialEq, Eq, Structural)]
pub struct GuardStatus {
    /// Whether the attitude estimator reports a valid solution.
    pub attitude_valid: bool,
    /// Whether actuators are available and not saturated.
    pub actuators_healthy: bool,
    /// Whether the body angular rate is within the allowed maximum.
    pub rate_within_limit: bool,
}

/// Simple deterministic state machine for spacecraft flight modes.
#[derive(Debug)]
pub struct FlightModeMachine {
    mode: FlightMode,
}

// ---------------------------------------------------------------------------
// Specification
// ---------------------------------------------------------------------------

/// The mode a command asks for from `mode`; `None` for a `Resume` outside
/// safe mode, which asks for nothing.
pub open spec fn command_target(mode: FlightMode, cmd: ModeCommand) -> Option<FlightMode> {
    match cmd {
        ModeCommand::SetMode(m) => Some(m),
        ModeCommand::Fault => Some(FlightMode::Safe),
        ModeCommand::Resume => if mode == FlightMode::Safe {
            Some(FlightMode::Idle)
        } else {
            None
        },
    }
}

/// Whether the guard lets the machine enter `target`: safe mode always,
/// any other mode only with healthy actuators, a valid attitude and the
/// rate within its limit.
pub open spec fn guard_allows(target: FlightMode, g: GuardStatus) -> bool {
    target == FlightMode::Safe || (g.actuators_healthy && g.attitude_valid && g.rate_within_limit)
}

/// One step of the machine: the next mode and the result of the command.
pub open spec fn step(mode: FlightMode, cmd: ModeCommand, g: GuardStatus) -> (
    FlightMode,
    TransitionResult,
) {
    match command_target(mode, cmd) {
        None => (mode, TransitionResult::NoOp),
        Some(t) => if t == mode {
            (mode, TransitionResult::NoOp)
        } else if !guard_allows(t, g) {
            (mode, TransitionResult::Rejected)
        } else {
            (t, TransitionResult::Accepted)
        },
    }
}

impl FlightModeMachine {
    /// The current mode.
    pub closed spec fn view(&self) -> FlightMode {
        self.mode
    }

    /// A machine in the given mode.
    pub fn new(mode: FlightMode) -> (m: Self)
        ensures
            m.view() == mode,
    {
        Self { mode }
    }

    /// The current mode.
    pub fn current(&self) -> (m: FlightMode)
        ensures
            m == self.view(),
    {
        self.mode
    }

    /// Request a transition. `guard` is the current vehicle health estimate.
    ///
    /// `Fault` asks for safe mode, `Resume` asks for idle but only from safe
    /// mode (elsewhere it is a no-op), and `Set` asks for the given mode.
    /// Asking for the current mode is a no-op; otherwise the guard decides
    /// between acceptance (the mode changes) and rejection.
    pub fn command(&mut self, cmd: ModeCommand, guard: &GuardStatus) -> (r: TransitionResult)
        ensures
            (final(self).view(), r) == step(old(self).view(), cmd, *guard),
    {
        let target = match cmd {
            ModeCommand::SetMode(m) => m,
            ModeCommand::Fault => FlightMode::Safe,
            ModeCommand::Resume => {
                if self.mode != FlightMode::Safe {
                    return TransitionResult::NoOp;
                }
                FlightMode::Idle
            },
        };
        if self.mode == target {
            return TransitionResult::NoOp;
        }
        if !self.guard_ok(target, guard) {
            return TransitionResult::Rejected;
        }
        self.mode = target;
        TransitionResult::Accepted
    }

    fn guard_ok(&self, target: FlightMode, guard: &GuardStatus) -> (b: bool)
        ensures
            b == guard_allows(target, *guard),
    {
        match target {
            // Safe mode is always reachable.
            FlightMode::Safe => true,
            FlightMode::Idle | FlightMode::Point | FlightMode::Maneuver | FlightMode::Coast => {
                guard.actuators_healthy && guard.attitude_valid && guard.rate_within_limit
            },
        }
    }
}

// ---------------------------------------------------------------------------
// Laws
// ---------------------------------------------------------------------------

/// A fault always ends in safe mode: from any other mode it is accepted
/// whatever the guard says, and in safe mode it is a no-op.
pub proof fn lemma_fault_reaches_safe(mode: FlightMode, g: GuardStatus)
    ensures
        step(mode, ModeCommand::Fault, g).0 == FlightMode::Safe,
        mode != FlightMode::Safe ==> step(mode, ModeCommand::Fault, g).1
            == TransitionResult::Accepted,
        mode == FlightMode::Safe ==> step(mode, ModeCommand::Fault, g).1
            == TransitionResult::NoOp,
{
}

/// `Resume` does nothing outside safe mode, and from safe mode it leads to
/// idle exactly when the guard holds.
pub proof fn lemma_resume_only_from_safe(mode: FlightMode, g: GuardStatus)
    ensures
        mode != FlightMode::Safe ==> step(mode, ModeCommand::Resume, g) == (
            mode,
            TransitionResult::NoOp,
        ),
        mode == FlightMode::Safe ==> step(mode, ModeCommand::Resume, g) == if guard_allows(
            FlightMode::Idle,
            g,
        ) {
            (FlightMode::Idle, TransitionResult::Accepted)
        } else {
            (FlightMode::Safe, TransitionResult::Rejected)
        },
{
}

/// The mode changes exactly when a command is accepted; a rejected or
/// no-op command leaves the mode as it was.
pub proof fn lemma_mode_changes_iff_accepted(mode: FlightMode, cmd: ModeCommand, g: GuardStatus)
    ensures
        (step(mode, cmd, g).0 != mode) <==> (step(mode, cmd, g).1 == TransitionResult::Accepted),
{
}

/// A mode other than safe mode is only ever entered through a guard that
/// holds.
pub proof fn lemma_entry_needs_guard(mode: FlightMode, cmd: ModeCommand, g: GuardStatus)
    ensures
        step(mode, cmd, g).1 == TransitionResult::Accepted && step(mode, cmd, g).0
            != FlightMode::Safe ==> g.actuators_healthy && g.attitude_valid && g.rate_within_limit,
{
}

/// Repeating a command right after it was accepted is a no-op.
pub proof fn lemma_repeat_is_noop(mode: FlightMode, cmd: ModeCommand, g: GuardStatus)
    ensures
        step(mode, cmd, g).1 == TransitionResult::Accepted ==> step(step(mode, cmd, g).0, cmd, g).1
            == TransitionResult::NoOp,
{
}

/// `SetMode(m)` asks for `m` and nothing else: when it is accepted the new
/// mode is `m`; asking for the current mode is a no-op; asking for another
/// mode is accepted when the guard is healthy or `m` is safe mode, and
/// rejected otherwise, the mode staying as it was.
pub proof fn lemma_set_mode_enters_target(mode: FlightMode, m: FlightMode, g: GuardStatus)
    ensures
        step(mode, ModeCommand::SetMode(m), g).1 == TransitionResult::Accepted ==> step(
            mode,
            ModeCommand::SetMode(m),
            g,
        ).0 == m,
        m == mode ==> step(mode, ModeCommand::SetMode(m), g) == (mode, TransitionResult::NoOp),
        m != mode && (m == FlightMode::Safe || (g.attitude_valid && g.actuators_healthy
            && g.rate_within_limit)) ==> step(mode, ModeCommand::SetMode(m), g) == (
            m,
            TransitionResult::Accepted,
        ),
        m != mode && m != FlightMode::Safe && !(g.attitude_valid && g.actuators_healthy
            && g.rate_within_limit) ==> step(mode, ModeCommand::SetMode(m), g) == (
            mode,
            TransitionResult::Rejected,
        ),
{
}

} // verus!
