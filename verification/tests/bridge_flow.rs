use katago_bridge::bridge::{backend_outcome, Bridge, BridgeError, InvokeStart, LineOutcome};
use katago_bridge::json::JsonValue;
use katago_bridge::ping;
use katago_bridge::supervisor::{RestartDecision, SupervisorState};

fn ready_bridge(max_restarts: u32) -> Bridge {
    let mut b = Bridge::new(max_restarts);
    b.start();
    b.spawn_ok();
    assert_eq!(b.current_state(), SupervisorState::Ready);
    b
}

fn submit(b: &mut Bridge, method: &str) -> (u64, Vec<u8>) {
    match b.invoke_submit(method.as_bytes().to_vec(), None) {
        InvokeStart::Submitted { id, wire } => (id, wire),
        InvokeStart::Rejected(e) => panic!("rejected: {:?}", e),
    }
}

#[test]
fn ping_is_fixed_identity() {
    assert_eq!(ping(), "easykatago");
}

#[test]
fn ping_is_idempotent() {
    let first = ping();
    for _ in 0..100 {
        assert_eq!(ping(), first);
    }
}

#[test]
fn request_wire_format_is_exact() {
    let mut b = ready_bridge(3);
    let (id, wire) = submit(&mut b, "settings.read");
    assert_eq!(id, 1);
    assert_eq!(wire, b"{\"id\":1,\"method\":\"settings.read\",\"params\":null}\n".to_vec());
}

#[test]
fn request_wire_carries_params() {
    let mut b = ready_bridge(3);
    let payload = JsonValue::Obj(vec![katago_bridge::json::JsonMember {
        key: b"lang".to_vec(),
        val: JsonValue::Str(b"en".to_vec()),
    }]);
    match b.invoke_submit(b"settings.write".to_vec(), Some(payload)) {
        InvokeStart::Submitted { id, wire } => {
            assert_eq!(id, 1);
            assert_eq!(
                wire,
                b"{\"id\":1,\"method\":\"settings.write\",\"params\":{\"lang\":\"en\"}}\n"
                    .to_vec()
            );
        }
        InvokeStart::Rejected(e) => panic!("rejected: {:?}", e),
    }
}

#[test]
fn matched_response_resolves_with_its_result() {
    let mut b = ready_bridge(3);
    let (id, _) = submit(&mut b, "settings.read");
    assert_eq!(id, 1);
    match b.on_line(b"{\"id\":1,\"result\":{\"lang\":\"en\"}}".to_vec()) {
        LineOutcome::Completed { entry, outcome } => {
            assert_eq!(entry.id, 1);
            assert_eq!(entry.method, b"settings.read".to_vec());
            let v = outcome.expect("success response");
            assert_eq!(
                v,
                JsonValue::Obj(vec![katago_bridge::json::JsonMember {
                    key: b"lang".to_vec(),
                    val: JsonValue::Str(b"en".to_vec()),
                }])
            );
        }
        other => panic!("expected completion, got {:?}", other),
    }
}

#[test]
fn reversed_delivery_order_still_matches_ids() {
    let mut b = ready_bridge(3);
    let mut ids = Vec::new();
    for _ in 0..10 {
        let (id, _) = submit(&mut b, "settings.read");
        ids.push(id);
    }
    for &id in ids.iter().rev() {
        let line = format!("{{\"id\":{},\"result\":{}}}", id, id);
        match b.on_line(line.into_bytes()) {
            LineOutcome::Completed { entry, outcome } => {
                assert_eq!(entry.id, id);
                let v = outcome.expect("success response");
                assert_eq!(v, JsonValue::Num(format!("{}", id).into_bytes()));
            }
            other => panic!("expected completion for {}, got {:?}", id, other),
        }
    }
    // Everything resolved: the same responses again are unmatched.
    match b.on_line(b"{\"id\":1,\"result\":1}".to_vec()) {
        LineOutcome::Unmatched { id } => assert_eq!(id, 1),
        other => panic!("expected unmatched, got {:?}", other),
    }
}

#[test]
fn crash_fails_pending_and_restart_recovers() {
    let mut b = ready_bridge(3);
    let (id, _) = submit(&mut b, "install.run");
    let failed = b.on_exit(Some(9));
    assert_eq!(failed.len(), 1);
    assert_eq!(failed[0].id, id);
    assert_eq!(b.current_state(), SupervisorState::Crashed);
    match b.request_restart() {
        RestartDecision::Retry { delay_ms } => assert_eq!(delay_ms, 100),
        RestartDecision::GiveUp => panic!("budget should not be spent"),
    }
    b.spawn_ok();
    assert_eq!(b.current_state(), SupervisorState::Ready);
    let (id2, _) = submit(&mut b, "settings.read");
    assert!(id2 > id, "ids stay unique across restarts");
    match b.on_line(format!("{{\"id\":{},\"result\":true}}", id2).into_bytes()) {
        LineOutcome::Completed { entry, outcome } => {
            assert_eq!(entry.id, id2);
            assert_eq!(outcome.expect("success"), JsonValue::Bool(true));
        }
        other => panic!("expected completion, got {:?}", other),
    }
}

#[test]
fn backend_error_is_surfaced_unmodified() {
    let mut b = ready_bridge(3);
    let (id, _) = submit(&mut b, "install.run");
    assert_eq!(id, 1);
    let line = b"{\"id\":1,\"error\":{\"code\":\"E_PERM\",\"message\":\"denied\"}}".to_vec();
    match b.on_line(line) {
        LineOutcome::Completed { entry, outcome } => {
            assert_eq!(entry.id, 1);
            let err = outcome.expect_err("error response");
            match backend_outcome(Err(err)) {
                Err(BridgeError::BackendError(payload)) => match payload {
                    JsonValue::Obj(ms) => {
                        assert_eq!(ms[0].key, b"code".to_vec());
                        assert_eq!(ms[0].val, JsonValue::Str(b"E_PERM".to_vec()));
                        assert_eq!(ms[1].key, b"message".to_vec());
                        assert_eq!(ms[1].val, JsonValue::Str(b"denied".to_vec()));
                    }
                    other => panic!("expected object payload, got {:?}", other),
                },
                other => panic!("expected backend error, got {:?}", other),
            }
        }
        other => panic!("expected completion, got {:?}", other),
    }
}

#[test]
fn malformed_line_is_scoped_and_matching_survives() {
    let mut b = ready_bridge(3);
    let (id, _) = submit(&mut b, "profiles.read");
    match b.on_line(b"{oops".to_vec()) {
        LineOutcome::Malformed { raw } => assert_eq!(raw, b"{oops".to_vec()),
        other => panic!("expected malformed, got {:?}", other),
    }
    match b.on_line(format!("{{\"id\":{},\"result\":null}}", id).into_bytes()) {
        LineOutcome::Completed { entry, outcome } => {
            assert_eq!(entry.id, id);
            assert_eq!(outcome.expect("success"), JsonValue::Null);
        }
        other => panic!("expected completion after malformed line, got {:?}", other),
    }
}

#[test]
fn malformed_line_with_readable_id_fails_that_call() {
    let mut b = ready_bridge(3);
    let (id, _) = submit(&mut b, "settings.read");
    // The envelope is corrupt, but its id field is readable: that call
    // gets a MalformedResponse instead of hanging.
    let line = format!("{{\"id\":{},\"result\":{{broken", id).into_bytes();
    match b.on_line(line.clone()) {
        LineOutcome::MalformedMatched { entry, raw } => {
            assert_eq!(entry.id, id);
            assert_eq!(raw, line);
        }
        other => panic!("expected matched malformed, got {:?}", other),
    }
    // The call was resolved: a late well-formed response is unmatched.
    match b.on_line(format!("{{\"id\":{},\"result\":null}}", id).into_bytes()) {
        LineOutcome::Unmatched { id: got } => assert_eq!(got, id),
        other => panic!("expected unmatched, got {:?}", other),
    }
}

#[test]
fn malformed_line_with_unknown_id_is_skipped() {
    let mut b = ready_bridge(3);
    let (_, _) = submit(&mut b, "settings.read");
    match b.on_line(b"{\"id\":99,\"result\":{broken".to_vec()) {
        LineOutcome::Malformed { raw } => {
            assert_eq!(raw, b"{\"id\":99,\"result\":{broken".to_vec());
        }
        other => panic!("expected unmatched malformed, got {:?}", other),
    }
}

#[test]
fn successful_restart_clears_the_budget() {
    let mut b = ready_bridge(1);
    for _ in 0..3 {
        let _ = b.on_exit(Some(1));
        match b.request_restart() {
            RestartDecision::Retry { delay_ms } => assert_eq!(delay_ms, 100),
            RestartDecision::GiveUp => panic!("each crash episode has a fresh budget"),
        }
        b.spawn_ok();
        assert_eq!(b.current_state(), SupervisorState::Ready);
    }
}

#[test]
fn envelope_without_valid_id_is_malformed() {
    let mut b = ready_bridge(3);
    let (id, _) = submit(&mut b, "settings.read");
    // An id that overflows 64 bits cannot address any call: the line is
    // skipped and the pending call stays untouched.
    match b.on_line(b"{\"id\":18446744073709551616,\"result\":null}".to_vec()) {
        LineOutcome::Malformed { .. } => {}
        other => panic!("expected malformed, got {:?}", other),
    }
    // An envelope with both result and error is not well formed, but its
    // id is readable: the call it addresses is failed rather than hung.
    match b.on_line(b"{\"id\":1,\"result\":1,\"error\":2}".to_vec()) {
        LineOutcome::MalformedMatched { entry, .. } => assert_eq!(entry.id, id),
        other => panic!("expected matched malformed, got {:?}", other),
    }
}

#[test]
fn not_running_fails_fast() {
    let mut b = Bridge::new(3);
    match b.invoke_submit(b"settings.read".to_vec(), None) {
        InvokeStart::Rejected(BridgeError::ProcessNotRunning) => {}
        other => panic!("expected not-running rejection, got {:?}", other),
    }
}

#[test]
fn exhausted_budget_is_terminal_unavailable() {
    let mut b = ready_bridge(0);
    let _ = b.on_exit(None);
    match b.request_restart() {
        RestartDecision::GiveUp => {}
        RestartDecision::Retry { .. } => panic!("budget is zero"),
    }
    assert_eq!(b.current_state(), SupervisorState::Unavailable);
    match b.invoke_submit(b"launch.run".to_vec(), None) {
        InvokeStart::Rejected(BridgeError::ProcessUnavailable) => {}
        other => panic!("expected unavailable rejection, got {:?}", other),
    }
}

#[test]
fn timeout_removes_exactly_one_call() {
    let mut b = ready_bridge(3);
    let (id, _) = submit(&mut b, "launch.run");
    let entry = b.on_timeout(id).expect("still pending");
    assert_eq!(entry.id, id);
    assert!(b.on_timeout(id).is_none());
    // The late response is discarded as unmatched.
    match b.on_line(format!("{{\"id\":{},\"result\":null}}", id).into_bytes()) {
        LineOutcome::Unmatched { id: got } => assert_eq!(got, id),
        other => panic!("expected unmatched, got {:?}", other),
    }
}

#[test]
fn shutdown_fails_pending_and_stops() {
    let mut b = ready_bridge(3);
    let (id, _) = submit(&mut b, "install.run");
    let failed = b.stop_requested();
    assert_eq!(failed.len(), 1);
    assert_eq!(failed[0].id, id);
    assert_eq!(b.current_state(), SupervisorState::Stopping);
    b.stopped();
    assert_eq!(b.current_state(), SupervisorState::Stopped);
}
