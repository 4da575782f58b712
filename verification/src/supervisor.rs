//! The process supervisor: owns the backend process's lifecycle.
//!
//! The host runtime performs the actual spawning, watching and killing;
//! it reports each outcome here, and this state machine decides what the
//! bridge may do next: `Stopped -> Starting -> Ready`, `Ready -> Crashed`
//! on an unexpected exit, `Crashed -> Starting` while the restart budget
//! lasts with exponentially growing delays, `Crashed -> Unavailable` once
//! it is spent, and `-> Stopping -> Stopped` on explicit shutdown.

use vstd::prelude::*;

verus! {

/// First restart delay, in milliseconds.
pub const BACKOFF_BASE_MS: u64 = 100;

/// Ceiling on the restart delay, in milliseconds.
pub const BACKOFF_CAP_MS: u64 = 60000;

/// Lifecycle state of the backend process.
#[derive(Clone, Copy, PartialEq, Eq, Structural, Debug)]
pub enum SupervisorState {
    Stopped,
    Starting,
    Ready,
    Crashed,
    Stopping,
    Unavailable,
}

/// What to do about a crash: try again after a delay, or give up for good.
#[derive(Debug, Clone, PartialEq, Eq)]
pub enum RestartDecision {
    Retry { delay_ms: u64 },
    GiveUp,
}

/// The delay before restart attempt `a`: the base doubled `a` times,
/// clamped to the cap.
pub open spec fn spec_backoff(a: int) -> int
    decreases a,
{
    if a <= 0 {
        BACKOFF_BASE_MS as int
    } else {
        let p = spec_backoff(a - 1);
        if 2 * p > BACKOFF_CAP_MS as int {
            BACKOFF_CAP_MS as int
        } else {
            2 * p
        }
    }
}

/// The bounded exponential backoff delay for restart attempt `attempt`.
pub fn backoff_ms(attempt: u32) -> (r: u64)
    ensures
        r as int == spec_backoff(attempt as int),
        BACKOFF_BASE_MS <= r <= BACKOFF_CAP_MS,
    decreases attempt,
{
    if attempt == 0 {
        BACKOFF_BASE_MS
    } else {
        let p = backoff_ms(attempt - 1);
        if 2 * p > BACKOFF_CAP_MS {
            BACKOFF_CAP_MS
        } else {
            2 * p
        }
    }
}

/// Tracks the backend process through spawn, crash, restart and shutdown.
pub struct Supervisor {
    state: SupervisorState,
    restarts_used: u32,
    max_restarts: u32,
    last_exit: Option<i64>,
}

impl Supervisor {
    /// The current lifecycle state.
    pub closed spec fn state(&self) -> SupervisorState {
        self.state
    }

    /// How many restarts have been spent.
    pub closed spec fn restarts_used(&self) -> u32 {
        self.restarts_used
    }

    /// The configured restart budget.
    pub closed spec fn max_restarts(&self) -> u32 {
        self.max_restarts
    }

    /// The exit code recorded at the last unexpected exit, if any.
    pub closed spec fn last_exit(&self) -> Option<i64> {
        self.last_exit
    }

    /// A fresh supervisor: process not yet spawned, budget untouched.
    pub fn new(max_restarts: u32) -> (r: Supervisor)
        ensures
            r.state() == SupervisorState::Stopped,
            r.restarts_used() == 0u32,
            r.max_restarts() == max_restarts,
            r.last_exit() is None,
    {
        Supervisor {
            state: SupervisorState::Stopped,
            restarts_used: 0,
            max_restarts,
            last_exit: None,
        }
    }

    /// The current state, for the host runtime to branch on.
    pub fn current_state(&self) -> (r: SupervisorState)
        ensures
            r == self.state(),
    {
        self.state
    }

    /// Begins the first spawn.
    pub fn start(&mut self)
        requires
            old(self).state() == SupervisorState::Stopped,
        ensures
            final(self).state() == SupervisorState::Starting,
            final(self).restarts_used() == old(self).restarts_used(),
            final(self).max_restarts() == old(self).max_restarts(),
            final(self).last_exit() == old(self).last_exit(),
    {
        self.state = SupervisorState::Starting;
    }

    /// The host spawned the process: it is ready for requests. A
    /// successful start clears the restart count, so the budget governs
    /// each crash episode: only consecutive failures to come back up
    /// exhaust it.
    pub fn spawn_ok(&mut self)
        requires
            old(self).state() == SupervisorState::Starting,
        ensures
            final(self).state() == SupervisorState::Ready,
            final(self).restarts_used() == 0u32,
            final(self).max_restarts() == old(self).max_restarts(),
            final(self).last_exit() == old(self).last_exit(),
    {
        self.state = SupervisorState::Ready;
        self.restarts_used = 0;
    }

    /// The host could not launch the executable: treated as a crash, so
    /// the restart policy decides what happens next.
    pub fn spawn_failed(&mut self)
        requires
            old(self).state() == SupervisorState::Starting,
        ensures
            final(self).state() == SupervisorState::Crashed,
            final(self).restarts_used() == old(self).restarts_used(),
            final(self).max_restarts() == old(self).max_restarts(),
            final(self).last_exit() == old(self).last_exit(),
    {
        self.state = SupervisorState::Crashed;
    }

    /// The process exited while it was supposed to be serving: record why
    /// and mark the crash.
    pub fn on_exit(&mut self, code: Option<i64>)
        requires
            old(self).state() == SupervisorState::Ready,
        ensures
            final(self).state() == SupervisorState::Crashed,
            final(self).restarts_used() == old(self).restarts_used(),
            final(self).max_restarts() == old(self).max_restarts(),
            final(self).last_exit() == code,
    {
        self.state = SupervisorState::Crashed;
        self.last_exit = code;
    }

    /// Decides the crash's aftermath: while the budget lasts, spend one
    /// restart and move to `Starting` with the next backoff delay; once it
    /// is spent, the terminal `Unavailable` state is entered and every
    /// later call fails fast.
    pub fn request_restart(&mut self) -> (r: RestartDecision)
        requires
            old(self).state() == SupervisorState::Crashed,
        ensures
            final(self).max_restarts() == old(self).max_restarts(),
            final(self).last_exit() == old(self).last_exit(),
            (match r {
                RestartDecision::Retry { delay_ms } => {
                    &&& old(self).restarts_used() < old(self).max_restarts()
                    &&& final(self).state() == SupervisorState::Starting
                    &&& final(self).restarts_used() == old(self).restarts_used() + 1
                    &&& delay_ms as int == spec_backoff(old(self).restarts_used() as int)
                },
                RestartDecision::GiveUp => {
                    &&& old(self).restarts_used() >= old(self).max_restarts()
                    &&& final(self).state() == SupervisorState::Unavailable
                    &&& final(self).restarts_used() == old(self).restarts_used()
                },
            }),
    {
        if self.restarts_used < self.max_restarts {
            let delay_ms = backoff_ms(self.restarts_used);
            self.restarts_used = self.restarts_used + 1;
            self.state = SupervisorState::Starting;
            RestartDecision::Retry { delay_ms }
        } else {
            self.state = SupervisorState::Unavailable;
            RestartDecision::GiveUp
        }
    }

    /// Explicit shutdown begins: the host signals the process to quit and
    /// waits, forcefully killing it if it lingers.
    pub fn stop_requested(&mut self)
        requires
            old(self).state() == SupervisorState::Ready || old(self).state()
                == SupervisorState::Starting || old(self).state() == SupervisorState::Crashed,
        ensures
            final(self).state() == SupervisorState::Stopping,
            final(self).restarts_used() == old(self).restarts_used(),
            final(self).max_restarts() == old(self).max_restarts(),
            final(self).last_exit() == old(self).last_exit(),
    {
        self.state = SupervisorState::Stopping;
    }

    /// The process is gone after an explicit shutdown.
    pub fn stopped(&mut self)
        requires
            old(self).state() == SupervisorState::Stopping,
        ensures
            final(self).state() == SupervisorState::Stopped,
            final(self).restarts_used() == old(self).restarts_used(),
            final(self).max_restarts() == old(self).max_restarts(),
            final(self).last_exit() == old(self).last_exit(),
    {
        self.state = SupervisorState::Stopped;
    }
}

} // verus!
