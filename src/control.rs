//! The daemon's shared rate/mode state and the control protocol that mutates it.
//!
//! Rates are held in thousandths of a frame per second ("millihertz"), so that
//! fractional rates such as half a frame per second stay exact integers.
//!
//! A manual rate request ends adaptive mode. The rate controller, once started,
//! is never started again: while the mode is manual its rates are not
//! published, and it resumes publishing when adaptive mode is turned back on.
use vstd::prelude::*;

verus! {

/// Thousandths of a frame per second in one frame per second.
pub const MILLI: u32 = 1000;

/// Lowest rate the daemon will signal at, in millihertz.
pub const MIN_RATE: u32 = 500;

/// Highest rate the daemon will signal at, in millihertz.
pub const MAX_RATE: u32 = 30_000;

/// Rate used when no configuration says otherwise, in millihertz.
pub const DEFAULT_RATE: u32 = 5000;

pub open spec fn clamp_spec(v: int, lo: int, hi: int) -> int {
    if v < lo {
        lo
    } else if v > hi {
        hi
    } else {
        v
    }
}

/// A requested rate (millihertz) brought into the valid range.
pub open spec fn clamp_rate_spec(v: int) -> int {
    clamp_spec(v, MIN_RATE as int, MAX_RATE as int)
}

/// Clamps a requested rate in millihertz into `[MIN_RATE, MAX_RATE]`.
pub fn clamp_rate(v: u64) -> (r: u32)
    ensures
        r == clamp_rate_spec(v as int),
        MIN_RATE <= r <= MAX_RATE,
{
    if v < MIN_RATE as u64 {
        MIN_RATE
    } else if v > MAX_RATE as u64 {
        MAX_RATE
    } else {
        v as u32
    }
}

/// Converts a whole-frames-per-second request into a clamped rate in millihertz.
pub fn rate_from_fps(fps: u32) -> (r: u32)
    ensures
        r == clamp_rate_spec(fps * MILLI),
        MIN_RATE <= r <= MAX_RATE,
{
    assert(fps as u64 * 1000 <= 1000 * 0xffff_ffffu64) by (nonlinear_arith);
    clamp_rate(fps as u64 * MILLI as u64)
}

/// One message of the control protocol; each connection carries exactly one.
#[derive(PartialEq, Eq, Structural, Clone, Copy, Debug)]
pub enum ControlMessage {
    /// Set a manual rate, in whole frames per second.
    SetFps(u32),
    /// Turn on adaptive mode, starting the rate controller if none runs.
    EnableAi,
    /// Ask for the next frame path of the image directory.
    NextImage,
}

#[derive(PartialEq, Eq, Structural, Clone, Copy, Debug)]
pub enum Mode {
    Manual,
    Adaptive,
}

/// What the control server must do after a message has been applied.
#[derive(PartialEq, Eq, Structural, Clone, Copy, Debug)]
pub enum ServerAction {
    /// Nothing further; close the connection.
    Done,
    /// Spawn the rate controller (this caller won the right to do so).
    StartController,
    /// Answer with the next frame path of the image directory.
    ServeFrame,
}

/// Mathematical model of the shared state.
pub struct ControlView {
    pub rate: int,
    pub mode: Mode,
    pub controller_active: bool,
}

/// The single source of truth for the signalling rate and the mode.
///
/// The rate always lies in `[MIN_RATE, MAX_RATE]`, so it is never zero.
pub struct ControlState {
    rate: u32,
    mode: Mode,
    controller_active: bool,
}

impl View for ControlState {
    type V = ControlView;

    closed spec fn view(&self) -> ControlView {
        ControlView { rate: self.rate as int, mode: self.mode, controller_active: self.controller_active }
    }
}

/// Every state the daemon can be in keeps its rate in range.
pub open spec fn state_wf(v: ControlView) -> bool {
    MIN_RATE <= v.rate <= MAX_RATE
}

/// `SetFps(fps)`: store the clamped rate and return to manual mode.
pub open spec fn set_rate_step(v: ControlView, fps: int) -> ControlView {
    ControlView { rate: clamp_rate_spec(fps * MILLI), mode: Mode::Manual, ..v }
}

/// Claiming the controller: granted only in adaptive mode, and only when none is active.
pub open spec fn claim_step(v: ControlView) -> (ControlView, bool) {
    if v.mode == Mode::Adaptive && !v.controller_active {
        (ControlView { controller_active: true, ..v }, true)
    } else {
        (v, false)
    }
}

/// `EnableAi`: switch to adaptive mode, then claim the controller.
pub open spec fn enable_step(v: ControlView) -> (ControlView, bool) {
    claim_step(ControlView { mode: Mode::Adaptive, ..v })
}

/// A rate computed by the controller is stored only while adaptive mode is on.
pub open spec fn publish_step(v: ControlView, rate: int) -> (ControlView, bool) {
    if v.mode == Mode::Adaptive {
        (ControlView { rate: clamp_rate_spec(rate), ..v }, true)
    } else {
        (v, false)
    }
}

/// Applies one control message.
pub open spec fn handle_step(v: ControlView, msg: ControlMessage) -> (ControlView, ServerAction) {
    match msg {
        ControlMessage::SetFps(fps) => (set_rate_step(v, fps as int), ServerAction::Done),
        ControlMessage::EnableAi => {
            let (w, started) = enable_step(v);
            (w, if started { ServerAction::StartController } else { ServerAction::Done })
        },
        ControlMessage::NextImage => (v, ServerAction::ServeFrame),
    }
}

/// Microseconds between two signals at `rate` millihertz.
pub open spec fn interval_micros_spec(rate: int) -> int {
    1_000_000_000int / rate
}

impl ControlState {
    /// The state at daemon startup: the configured rate, clamped, and the configured mode.
    /// No controller runs yet.
    pub fn new(initial_rate: u64, adaptive: bool) -> (s: Self)
        ensures
            state_wf(s@),
            s@.rate == clamp_rate_spec(initial_rate as int),
            s@.mode == (if adaptive { Mode::Adaptive } else { Mode::Manual }),
            !s@.controller_active,
    {
        ControlState {
            rate: clamp_rate(initial_rate),
            mode: if adaptive { Mode::Adaptive } else { Mode::Manual },
            controller_active: false,
        }
    }

    /// The current rate in millihertz.
    pub fn read_rate(&self) -> (r: u32)
        requires
            state_wf(self@),
        ensures
            r == self@.rate,
            MIN_RATE <= r <= MAX_RATE,
    {
        self.rate
    }

    pub fn mode(&self) -> (m: Mode)
        ensures
            m == self@.mode,
    {
        self.mode
    }

    pub fn controller_active(&self) -> (b: bool)
        ensures
            b == self@.controller_active,
    {
        self.controller_active
    }

    /// Stores `fps` (whole frames per second), clamped, and returns to manual mode.
    pub fn set_rate(&mut self, fps: u32)
        requires
            state_wf(old(self)@),
        ensures
            state_wf(final(self)@),
            final(self)@ == set_rate_step(old(self)@, fps as int),
    {
        self.rate = rate_from_fps(fps);
        self.mode = Mode::Manual;
    }

    /// Check-and-set guard of the rate controller: returns true, and marks a
    /// controller active, only when adaptive mode is on and no controller runs.
    pub fn claim_controller(&mut self) -> (started: bool)
        requires
            state_wf(old(self)@),
        ensures
            state_wf(final(self)@),
            (final(self)@, started) == claim_step(old(self)@),
    {
        if self.mode == Mode::Adaptive && !self.controller_active {
            self.controller_active = true;
            true
        } else {
            false
        }
    }

    /// Turns adaptive mode on; returns true when the caller must spawn the controller.
    pub fn enable_adaptive(&mut self) -> (started: bool)
        requires
            state_wf(old(self)@),
        ensures
            state_wf(final(self)@),
            (final(self)@, started) == enable_step(old(self)@),
    {
        self.mode = Mode::Adaptive;
        self.claim_controller()
    }

    /// The controller has exited for good: the daemon falls back to manual operation.
    pub fn controller_stopped(&mut self)
        requires
            state_wf(old(self)@),
        ensures
            state_wf(final(self)@),
            final(self)@ == (ControlView { mode: Mode::Manual, controller_active: false, ..old(self)@ }),
    {
        self.controller_active = false;
        self.mode = Mode::Manual;
    }

    /// Stores a rate (millihertz) computed by the controller, clamped, if adaptive
    /// mode is still on; returns whether it was stored.
    pub fn publish_adaptive(&mut self, rate: u64) -> (stored: bool)
        requires
            state_wf(old(self)@),
        ensures
            state_wf(final(self)@),
            (final(self)@, stored) == publish_step(old(self)@, rate as int),
    {
        if self.mode == Mode::Adaptive {
            self.rate = clamp_rate(rate);
            true
        } else {
            false
        }
    }

    /// Applies one decoded control message and says what the server must do next.
    pub fn handle(&mut self, msg: ControlMessage) -> (action: ServerAction)
        requires
            state_wf(old(self)@),
        ensures
            state_wf(final(self)@),
            (final(self)@, action) == handle_step(old(self)@, msg),
    {
        match msg {
            ControlMessage::SetFps(fps) => {
                self.set_rate(fps);
                ServerAction::Done
            },
            ControlMessage::EnableAi => {
                if self.enable_adaptive() {
                    ServerAction::StartController
                } else {
                    ServerAction::Done
                }
            },
            ControlMessage::NextImage => ServerAction::ServeFrame,
        }
    }

    /// How long the signalling loop sleeps between two signals, in microseconds.
    pub fn signal_interval_micros(&self) -> (us: u64)
        requires
            state_wf(self@),
        ensures
            us == interval_micros_spec(self@.rate),
            33_333 <= us <= 2_000_000,
    {
        let us = 1_000_000_000u64 / self.rate as u64;
        assert(1_000_000_000u64 / 30_000u64 <= us <= 1_000_000_000u64 / 500u64) by (nonlinear_arith)
            requires
                500 <= self.rate <= 30_000,
                us == 1_000_000_000u64 / self.rate as u64,
        {
            vstd::arithmetic::div_mod::lemma_div_is_ordered_by_denominator(1_000_000_000, self.rate as int, 30_000);
            vstd::arithmetic::div_mod::lemma_div_is_ordered_by_denominator(1_000_000_000, 500, self.rate as int);
        }
        us
    }
}

/// After `SetFps(v)` the rate read back is `v` frames per second clamped into
/// `[MIN_RATE, MAX_RATE]`, whatever the state before.
pub proof fn lemma_set_rate_then_read(v: ControlView, fps: u32)
    requires
        state_wf(v),
    ensures
        set_rate_step(v, fps as int).rate == clamp_spec(fps * MILLI, MIN_RATE as int, MAX_RATE as int),
        state_wf(set_rate_step(v, fps as int)),
        handle_step(v, ControlMessage::SetFps(fps)).0.rate == set_rate_step(v, fps as int).rate,
{
}

/// Enabling adaptive mode twice in a row starts at most one controller: the
/// second request never starts one, exactly one controller is active afterwards,
/// and the first starts one exactly when none was active.
pub proof fn lemma_enable_twice_single_controller(v: ControlView)
    ensures
        ({
            let (v1, a1) = handle_step(v, ControlMessage::EnableAi);
            let (v2, a2) = handle_step(v1, ControlMessage::EnableAi);
            &&& a2 == ServerAction::Done
            &&& v2.controller_active
            &&& v2.mode == Mode::Adaptive
            &&& (a1 == ServerAction::StartController) == !v.controller_active
        }),
{
}

/// Once a controller is active, no control message starts another one, and a
/// controller stays active: with the startup claim or the first `EnableAi`, at
/// most one controller runs for the daemon's lifetime, however many requests follow.
pub proof fn lemma_active_controller_never_restarted(v: ControlView, msg: ControlMessage)
    requires
        v.controller_active,
    ensures
        handle_step(v, msg).1 != ServerAction::StartController,
        handle_step(v, msg).0.controller_active,
{
}

} // verus!
