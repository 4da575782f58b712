//! The bridge facade: one call-and-wait operation over the backend
//! process's single duplex stream.
//!
//! The host runtime owns the real process and its streams. It drives this
//! state machine: `invoke_submit` admits a call and yields the bytes to
//! write, a single reader loop feeds each received line to `on_line`, and
//! process events go to the supervisor methods. Writes of the yielded
//! bytes must be serialised by the host (one writer at a time) so two
//! encoded envelopes never interleave on the wire.

use vstd::prelude::*;

use crate::json::JsonValue;
use crate::codec::RequestEnvelope;
use crate::codec::spec_encode_request;
use crate::codec::spec_decode_line;
use crate::codec::params_model;
use crate::codec::lemma_request_is_one_line;
use crate::json::wf_data;
use crate::codec::encode_request;
use crate::codec::decode_line;
use crate::codec::salvage_id;
use crate::codec::spec_salvage_id;
use crate::correlator::Correlator;
use crate::correlator::PendingRequest;
use crate::correlator::has_id;
use crate::correlator::spec_find;
use crate::correlator::spec_remove_id;
use crate::supervisor::Supervisor;
use crate::supervisor::SupervisorState;
use crate::supervisor::RestartDecision;

verus! {

/// Why an `invoke` call failed. The backend's own error payload is
/// carried unmodified; every other variant is a transport or lifecycle
/// failure of the bridge itself.
#[derive(Debug, PartialEq, Eq)]
pub enum BridgeError {
    /// The executable could not be launched.
    ProcessSpawnFailed,
    /// A call arrived while the supervisor is not `Ready`.
    ProcessNotRunning,
    /// The restart budget is spent; the bridge is terminally down.
    ProcessUnavailable,
    /// The backend exited while this call was pending.
    ProcessCrashed,
    /// No response arrived within the configured deadline.
    Timeout,
    /// A line from the backend did not decode; the raw bytes are kept.
    MalformedResponse(Vec<u8>),
    /// The backend answered this call with its own error payload.
    BackendError(JsonValue),
}

/// The admission verdict on one `invoke` call.
#[derive(Debug)]
pub enum InvokeStart {
    /// The call was refused before any I/O.
    Rejected(BridgeError),
    /// The call is pending under `id`; the host must write `wire` to the
    /// process input, serialised against other writers.
    Submitted { id: u64, wire: Vec<u8> },
}

/// What one line from the backend meant.
#[derive(Debug)]
pub enum LineOutcome {
    /// The line answered the pending call `entry`; hand `outcome` to its
    /// waiting caller.
    Completed { entry: PendingRequest, outcome: Result<JsonValue, JsonValue> },
    /// A well-formed envelope addressed to no pending call: logged and
    /// discarded.
    Unmatched { id: u64 },
    /// Undecodable bytes, but the id they were addressed to was readable
    /// and names the pending call `entry`: hand its caller a
    /// `MalformedResponse` carrying the raw bytes.
    MalformedMatched { entry: PendingRequest, raw: Vec<u8> },
    /// Undecodable bytes addressed to no pending call: logged and
    /// discarded; no pending call is touched, and framing re-aligns at
    /// the next newline.
    Malformed { raw: Vec<u8> },
}

/// The composition root: one supervisor, one correlator, one backend.
pub struct Bridge {
    sup: Supervisor,
    cor: Correlator,
}

impl Bridge {
    /// The supervisor's view.
    pub closed spec fn sup(&self) -> Supervisor {
        self.sup
    }

    /// The correlator's view.
    pub closed spec fn cor(&self) -> Correlator {
        self.cor
    }

    /// The bridge's invariant: the pending table is well formed.
    pub open spec fn wf(&self) -> bool {
        self.cor().wf()
    }

    /// A fresh bridge: nothing pending, process not yet spawned. The host
    /// spawns eagerly right after construction.
    pub fn new(max_restarts: u32) -> (r: Bridge)
        ensures
            r.wf(),
            r.sup().state() == SupervisorState::Stopped,
            r.sup().restarts_used() == 0u32,
            r.sup().max_restarts() == max_restarts,
            r.cor().pending().len() == 0,
            r.cor().next() == 1u64,
    {
        Bridge { sup: Supervisor::new(max_restarts), cor: Correlator::new() }
    }

    /// The supervisor state, for the host to branch on.
    pub fn current_state(&self) -> (r: SupervisorState)
        ensures
            r == self.sup().state(),
    {
        self.sup.current_state()
    }

    /// Whether the id counter still has room for another call.
    pub fn can_submit(&self) -> (r: bool)
        ensures
            r == (self.cor().next() < u64::MAX),
    {
        self.cor.next_id() < u64::MAX
    }

    /// Admits one call. While the supervisor is `Ready` the call gets a
    /// fresh id, a pending entry, and the encoded line to write; in the
    /// terminal `Unavailable` state it fails fast with
    /// `ProcessUnavailable`, and in every other non-ready state with
    /// `ProcessNotRunning` — in both cases before any I/O, leaving all
    /// state untouched and asking nothing of the arguments. Only the
    /// ready path asks for room in the id counter and for payload
    /// numbers that are genuine decimal literals.
    pub fn invoke_submit(&mut self, method: Vec<u8>, params: Option<JsonValue>) -> (r:
        InvokeStart)
        requires
            old(self).wf(),
            old(self).sup().state() == SupervisorState::Ready ==> old(self).cor().next()
                < u64::MAX,
            old(self).sup().state() == SupervisorState::Ready ==> (match params {
                Some(v) => wf_data(v.model()),
                None => true,
            }),
        ensures
            final(self).wf(),
            final(self).sup() == old(self).sup(),
            (match r {
                InvokeStart::Rejected(e) => {
                    &&& old(self).sup().state() != SupervisorState::Ready
                    &&& final(self).cor() == old(self).cor()
                    &&& (e matches BridgeError::ProcessUnavailable <==> old(self).sup().state()
                        == SupervisorState::Unavailable)
                    &&& (e matches BridgeError::ProcessNotRunning <==> old(self).sup().state()
                        != SupervisorState::Unavailable)
                },
                InvokeStart::Submitted { id, wire } => {
                    &&& old(self).sup().state() == SupervisorState::Ready
                    &&& id == old(self).cor().next()
                    &&& final(self).cor().next() == id + 1
                    &&& wire@ == spec_encode_request(id, method@, params_model(params))
                    &&& wire@.len() > 0 && wire@.last() == 0x0a
                    &&& (forall|i: int| 0 <= i < wire@.len() - 1 ==> (#[trigger] wire@[i])
                        != 0x0a)
                    &&& final(self).cor().pending().drop_last() == old(self).cor().pending()
                    &&& final(self).cor().pending().len() == old(self).cor().pending().len()
                        + 1
                    &&& final(self).cor().pending().last().id == id
                    &&& final(self).cor().pending().last().method@ == method@
                    &&& has_id(final(self).cor().pending(), id)
                },
            }),
    {
        match self.sup.current_state() {
            SupervisorState::Ready => {
                let id = self.cor.next_id();
                let ghost gmethod = method@;
                let ghost gparams = params_model(params);
                let req = RequestEnvelope { id, method, params };
                let wire = encode_request(&req);
                proof {
                    lemma_request_is_one_line(id, gmethod, gparams);
                }
                let RequestEnvelope { id: _, method: method_back, params: _ } = req;
                let id2 = self.cor.submit(method_back);
                InvokeStart::Submitted { id: id2, wire }
            },
            SupervisorState::Unavailable => InvokeStart::Rejected(BridgeError::ProcessUnavailable),
            _ => InvokeStart::Rejected(BridgeError::ProcessNotRunning),
        }
    }

    /// Interprets one complete line from the backend's output stream.
    /// A well-formed envelope resolves exactly the pending call carrying
    /// its id and no other. An undecodable line fails the call its
    /// readable id names, if any, and otherwise — like an envelope for an
    /// unknown or already-resolved id — leaves every pending call
    /// untouched.
    pub fn on_line(&mut self, line: Vec<u8>) -> (r: LineOutcome)
        requires
            old(self).wf(),
        ensures
            final(self).wf(),
            final(self).sup() == old(self).sup(),
            final(self).cor().next() == old(self).cor().next(),
            (match r {
                LineOutcome::Completed { entry, outcome } => (match spec_decode_line(line@) {
                    Some(env) => {
                        &&& entry.id == env.id
                        &&& spec_find(old(self).cor().pending(), env.id) == Some(entry)
                        &&& final(self).cor().pending() == spec_remove_id(
                            old(self).cor().pending(), env.id)
                        &&& (match outcome {
                            Ok(v) => env.outcome == Ok::<
                                crate::json::JsonData, crate::json::JsonData>(v.model()),
                            Err(e) => env.outcome == Err::<
                                crate::json::JsonData, crate::json::JsonData>(e.model()),
                        })
                    },
                    None => false,
                }),
                LineOutcome::Unmatched { id } => (match spec_decode_line(line@) {
                    Some(env) => {
                        &&& env.id == id
                        &&& !has_id(old(self).cor().pending(), id)
                        &&& final(self).cor().pending() == old(self).cor().pending()
                    },
                    None => false,
                }),
                LineOutcome::MalformedMatched { entry, raw } => {
                    &&& spec_decode_line(line@) is None
                    &&& raw@ == line@
                    &&& spec_salvage_id(line@, 0) == Some(entry.id)
                    &&& spec_find(old(self).cor().pending(), entry.id) == Some(entry)
                    &&& final(self).cor().pending() == spec_remove_id(
                        old(self).cor().pending(), entry.id)
                },
                LineOutcome::Malformed { raw } => {
                    &&& spec_decode_line(line@) is None
                    &&& raw@ == line@
                    &&& final(self).cor().pending() == old(self).cor().pending()
                    &&& (match spec_salvage_id(line@, 0) {
                        Some(id) => !has_id(old(self).cor().pending(), id),
                        None => true,
                    })
                },
            }),
    {
        match decode_line(&line) {
            Some(env) => {
                match self.cor.resolve(env.id) {
                    Some(entry) => LineOutcome::Completed { entry, outcome: env.outcome },
                    None => {
                        proof {
                            crate::correlator::lemma_remove_id_absent(old(self).cor().pending(),
                                env.id);
                        }
                        LineOutcome::Unmatched { id: env.id }
                    },
                }
            },
            None => {
                match salvage_id(&line) {
                    Some(id) => {
                        match self.cor.resolve(id) {
                            Some(entry) => LineOutcome::MalformedMatched { entry, raw: line },
                            None => {
                                proof {
                                    crate::correlator::lemma_remove_id_absent(
                                        old(self).cor().pending(), id);
                                }
                                LineOutcome::Malformed { raw: line }
                            },
                        }
                    },
                    None => LineOutcome::Malformed { raw: line },
                }
            },
        }
    }

    /// A configured per-request deadline fired: force-fails the call
    /// carrying `id`, if it is still pending. The host hands the returned
    /// entry's caller a `Timeout`; if the response arrives later it is
    /// discarded as unmatched.
    pub fn on_timeout(&mut self, id: u64) -> (r: Option<PendingRequest>)
        requires
            old(self).wf(),
        ensures
            final(self).wf(),
            final(self).sup() == old(self).sup(),
            final(self).cor().next() == old(self).cor().next(),
            r == spec_find(old(self).cor().pending(), id),
            final(self).cor().pending() == spec_remove_id(old(self).cor().pending(), id),
    {
        self.cor.resolve(id)
    }

    /// The backend exited unexpectedly: the supervisor records the crash
    /// and every pending call is failed at once. The host hands each
    /// returned entry's caller a `ProcessCrashed` within a bounded time,
    /// so no call hangs on a dead process.
    pub fn on_exit(&mut self, code: Option<i64>) -> (r: Vec<PendingRequest>)
        requires
            old(self).wf(),
            old(self).sup().state() == SupervisorState::Ready,
        ensures
            final(self).wf(),
            r@ == old(self).cor().pending(),
            final(self).cor().pending().len() == 0,
            final(self).cor().next() == old(self).cor().next(),
            final(self).sup().state() == SupervisorState::Crashed,
            final(self).sup().last_exit() == code,
            final(self).sup().restarts_used() == old(self).sup().restarts_used(),
            final(self).sup().max_restarts() == old(self).sup().max_restarts(),
    {
        self.sup.on_exit(code);
        self.cor.fail_all()
    }

    /// Begins the first spawn.
    pub fn start(&mut self)
        requires
            old(self).sup().state() == SupervisorState::Stopped,
        ensures
            final(self).cor() == old(self).cor(),
            final(self).sup().state() == SupervisorState::Starting,
            final(self).sup().restarts_used() == old(self).sup().restarts_used(),
            final(self).sup().max_restarts() == old(self).sup().max_restarts(),
    {
        self.sup.start();
    }

    /// The spawn succeeded: new process instance, ready for requests,
    /// restart budget cleared for the next crash episode. Requests
    /// pending from before a crash were already failed, never carried
    /// over: framing is not preserved across process instances.
    pub fn spawn_ok(&mut self)
        requires
            old(self).sup().state() == SupervisorState::Starting,
        ensures
            final(self).cor() == old(self).cor(),
            final(self).sup().state() == SupervisorState::Ready,
            final(self).sup().restarts_used() == 0u32,
            final(self).sup().max_restarts() == old(self).sup().max_restarts(),
    {
        self.sup.spawn_ok();
    }

    /// The spawn failed: the caller that triggered it sees
    /// `ProcessSpawnFailed`; the restart policy decides what follows.
    pub fn spawn_failed(&mut self)
        requires
            old(self).sup().state() == SupervisorState::Starting,
        ensures
            final(self).cor() == old(self).cor(),
            final(self).sup().state() == SupervisorState::Crashed,
            final(self).sup().restarts_used() == old(self).sup().restarts_used(),
            final(self).sup().max_restarts() == old(self).sup().max_restarts(),
    {
        self.sup.spawn_failed();
    }

    /// Decides a crashed process's aftermath; see the supervisor.
    pub fn request_restart(&mut self) -> (r: RestartDecision)
        requires
            old(self).sup().state() == SupervisorState::Crashed,
        ensures
            final(self).cor() == old(self).cor(),
            final(self).sup().max_restarts() == old(self).sup().max_restarts(),
            (match r {
                RestartDecision::Retry { delay_ms } => {
                    &&& old(self).sup().restarts_used() < old(self).sup().max_restarts()
                    &&& final(self).sup().state() == SupervisorState::Starting
                    &&& final(self).sup().restarts_used() == old(self).sup().restarts_used()
                        + 1
                    &&& delay_ms as int == crate::supervisor::spec_backoff(
                        old(self).sup().restarts_used() as int)
                },
                RestartDecision::GiveUp => {
                    &&& old(self).sup().restarts_used() >= old(self).sup().max_restarts()
                    &&& final(self).sup().state() == SupervisorState::Unavailable
                },
            }),
    {
        self.sup.request_restart()
    }

    /// Explicit shutdown: every still-pending call is failed, and the
    /// supervisor moves to `Stopping` while the host terminates the
    /// process.
    pub fn stop_requested(&mut self) -> (r: Vec<PendingRequest>)
        requires
            old(self).wf(),
            old(self).sup().state() == SupervisorState::Ready || old(self).sup().state()
                == SupervisorState::Starting || old(self).sup().state()
                == SupervisorState::Crashed,
        ensures
            final(self).wf(),
            r@ == old(self).cor().pending(),
            final(self).cor().pending().len() == 0,
            final(self).sup().state() == SupervisorState::Stopping,
    {
        self.sup.stop_requested();
        self.cor.fail_all()
    }

    /// The process is gone after an explicit shutdown.
    pub fn stopped(&mut self)
        requires
            old(self).sup().state() == SupervisorState::Stopping,
        ensures
            final(self).cor() == old(self).cor(),
            final(self).sup().state() == SupervisorState::Stopped,
    {
        self.sup.stopped();
    }
}

/// When the backend echoes a response whose id matches a pending call,
/// resolution delivers exactly that envelope to exactly that call, and no
/// other pending call's eventual resolution is changed by it.
pub proof fn lemma_matched_response_delivers(pending: Seq<PendingRequest>, line: Seq<u8>)
    requires
        spec_decode_line(line) matches Some(env) && has_id(pending, env.id),
    ensures
        spec_decode_line(line) matches Some(env) ==> spec_find(pending, env.id)
            matches Some(p) && p.id == env.id,
        spec_decode_line(line) matches Some(env) ==> forall|x: u64| x != env.id
            ==> spec_find(#[trigger] spec_remove_id(pending, env.id), x) == spec_find(
            pending, x),
{
    if let Some(env) = spec_decode_line(line) {
        crate::correlator::lemma_find_has_id(pending, env.id);
        assert forall|x: u64| x != env.id implies spec_find(
            spec_remove_id(pending, env.id), x) == spec_find(pending, x) by {
            crate::correlator::lemma_resolution_independent(pending, env.id, x);
        }
    }
}

/// When the process dies, the batch handed back covers every pending
/// call: each pending id names an entry of the old table, and the batch
/// is exactly that table, so no call is left to hang.
pub proof fn lemma_crash_fails_every_pending(s: Seq<PendingRequest>, id: u64)
    requires
        has_id(s, id),
    ensures
        exists|i: int| 0 <= i < s.len() && (#[trigger] s[i].id) == id,
    decreases s.len(),
{
    if s[0].id == id {
        assert(0 <= 0 < s.len() && s[0].id == id);
    } else {
        lemma_crash_fails_every_pending(s.drop_first(), id);
        let i = choose|i: int| 0 <= i < s.drop_first().len() && (#[trigger] s.drop_first()[
            i].id) == id;
        assert(s[i + 1].id == id);
    }
}

/// Maps the backend's verdict to what `invoke` returns: the declared
/// result on success, or `BackendError` carrying the backend's error
/// payload unmodified.
pub fn backend_outcome(outcome: Result<JsonValue, JsonValue>) -> (r: Result<
    JsonValue, BridgeError>)
    ensures
        (match outcome {
            Ok(v) => r == Ok::<JsonValue, BridgeError>(v),
            Err(e) => r == Err::<JsonValue, BridgeError>(BridgeError::BackendError(e)),
        }),
{
    match outcome {
        Ok(v) => Ok(v),
        Err(e) => Err(BridgeError::BackendError(e)),
    }
}

} // verus!
