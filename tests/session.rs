use mpv_ipc::codec::{decode, encode_command, DecodeError, EncodeError, Inbound};
use mpv_ipc::correlator::{Completion, Correlator, Outcome};
use mpv_ipc::identity::{verify_identity, IdentityError};
use mpv_ipc::router::{Event, EventRouter};
use mpv_ipc::endpoint::pipe_path;
use mpv_ipc::session::{Delivery, Feed, Session, SubmitError};

fn b(s: &str) -> Vec<u8> {
    s.as_bytes().to_vec()
}

fn open_at(first_id: u64) -> Session {
    match Session::open(None, Some(1), first_id) {
        Ok(s) => s,
        Err(_) => panic!("session refused"),
    }
}

#[test]
fn response_resolves_matching_request() {
    let mut s = open_at(7);
    let (id, frame) = s.submit(&b("get_property"), &vec![b("volume")], 0, 2000).unwrap();
    assert_eq!(id, 7);
    assert_eq!(frame, b("{\"command\":[\"get_property\",\"volume\"],\"request_id\":7}\n"));
    let d = s.on_line(&b("{\"request_id\":7,\"error\":\"success\",\"data\":50}"));
    assert_eq!(d, Delivery::Resolved(Completion { id: 7, outcome: Outcome::Success(b("50")) }));
    assert_eq!(s.pending_count(), 0);
}

#[test]
fn no_reply_within_timeout_gives_timeout() {
    let mut s = open_at(7);
    let (id, _) = s.submit(&b("get_property"), &vec![b("volume")], 1000, 2000).unwrap();
    assert!(s.on_tick(2999).is_empty());
    assert!(s.is_pending(id));
    assert_eq!(s.on_tick(3000), vec![Completion { id: 7, outcome: Outcome::Timeout }]);
    assert!(!s.is_pending(id));
    assert_eq!(s.on_line(&b("{\"request_id\":7,\"error\":\"success\",\"data\":50}")), Delivery::Unmatched(7));
}

#[test]
fn unsolicited_event_reaches_all_subscribers() {
    let mut s = open_at(1);
    let h1 = s.subscribe(4).unwrap();
    let h2 = s.subscribe(4).unwrap();
    s.submit(&b("get_property"), &vec![b("pause")], 0, 100).unwrap();
    assert_eq!(s.on_line(&b("{\"event\":\"pause\"}")), Delivery::Routed);
    assert_eq!(s.pending_count(), 1);
    assert!(s.is_pending(1));
    for h in [h1, h2] {
        let e = s.next_event(h).unwrap();
        assert_eq!(e.name, b("pause"));
        assert_eq!(e.payload, b("{\"event\":\"pause\"}"));
        assert!(s.next_event(h).is_none());
    }
}

#[test]
fn end_of_stream_closes_pending_requests() {
    let mut s = open_at(3);
    s.submit(&b("get_property"), &vec![b("volume")], 0, 100).unwrap();
    s.submit(&b("get_property"), &vec![b("speed")], 0, 100).unwrap();
    let done = s.close();
    assert_eq!(
        done,
        vec![
            Completion { id: 3, outcome: Outcome::ConnectionClosed },
            Completion { id: 4, outcome: Outcome::ConnectionClosed },
        ]
    );
    assert_eq!(s.pending_count(), 0);
    assert!(s.closed());
    assert_eq!(s.submit(&b("stop"), &vec![], 0, 100), Err(SubmitError::ConnectionClosed));
    assert_eq!(s.on_line(&b("{\"event\":\"pause\"}")), Delivery::Ignored);
}

#[test]
fn unmatched_response_leaves_others_alone() {
    let mut s = open_at(1);
    let h = s.subscribe(2).unwrap();
    s.submit(&b("a"), &vec![], 0, 100).unwrap();
    s.submit(&b("b"), &vec![], 0, 100).unwrap();
    assert_eq!(s.on_line(&b("{\"request_id\":99,\"error\":\"success\"}")), Delivery::Unmatched(99));
    assert_eq!(s.pending_count(), 2);
    assert!(s.is_pending(1) && s.is_pending(2));
    assert!(s.next_event(h).is_none());
}

#[test]
fn second_resolution_is_a_no_op() {
    let mut s = open_at(5);
    s.submit(&b("a"), &vec![], 0, 100).unwrap();
    let line = b("{\"request_id\":5,\"error\":\"property unavailable\"}");
    assert_eq!(
        s.on_line(&line),
        Delivery::Resolved(Completion { id: 5, outcome: Outcome::Failure(b("property unavailable")) })
    );
    assert_eq!(s.on_line(&line), Delivery::Unmatched(5));
    assert_eq!(s.cancel(5), None);
    assert!(s.close().is_empty());
}

#[test]
fn cancel_resolves_as_timeout() {
    let mut s = open_at(1);
    s.submit(&b("a"), &vec![], 0, 100).unwrap();
    s.submit(&b("b"), &vec![], 0, 100).unwrap();
    assert_eq!(s.cancel(1), Some(Completion { id: 1, outcome: Outcome::Timeout }));
    assert!(!s.is_pending(1));
    assert!(s.is_pending(2));
}

#[test]
fn ids_are_distinct_while_pending() {
    let mut s = open_at(10);
    let mut ids = Vec::new();
    for _ in 0..5 {
        ids.push(s.submit(&b("a"), &vec![], 0, 100).unwrap().0);
    }
    assert_eq!(ids, vec![10, 11, 12, 13, 14]);
}

#[test]
fn ids_run_out_at_the_largest() {
    let mut s = open_at(u64::MAX - 1);
    assert_eq!(s.submit(&b("a"), &vec![], 0, 1).unwrap().0, u64::MAX - 1);
    assert_eq!(s.submit(&b("a"), &vec![], 0, 1), Err(SubmitError::IdsExhausted));
    assert_eq!(s.pending_count(), 1);
}

#[test]
fn newline_in_argument_is_rejected_without_effect() {
    let mut s = open_at(1);
    assert_eq!(s.submit(&b("set"), &vec![b("a\nb")], 0, 100), Err(SubmitError::InvalidArgument));
    assert_eq!(s.pending_count(), 0);
    assert_eq!(s.submit(&b("s\net"), &vec![], 0, 100), Err(SubmitError::InvalidArgument));
    assert_eq!(s.submit(&b("set"), &vec![], 0, 100).unwrap().0, 1);
    assert_eq!(encode_command(&b("x"), &vec![b("ok"), b("\n")], 1), Err(EncodeError::InvalidArgument));
}

#[test]
fn encoder_escapes_quotes_backslashes_and_controls() {
    let frame = encode_command(&b("show-text"), &vec![b("a\"b\\c\td"), b("")], 1234567890123).unwrap();
    assert_eq!(
        frame,
        b("{\"command\":[\"show-text\",\"a\\\"b\\\\c\\u0009d\",\"\"],\"request_id\":1234567890123}\n")
    );
    let frame = encode_command(&b("x"), &vec![vec![0x1f]], 0).unwrap();
    assert_eq!(frame, b("{\"command\":[\"x\",\"\\u001f\"],\"request_id\":0}\n"));
    let frame = encode_command(&b("quit"), &vec![], u64::MAX).unwrap();
    assert_eq!(frame, b("{\"command\":[\"quit\"],\"request_id\":18446744073709551615}\n"));
}

#[test]
fn decoder_reads_responses_with_spaces_and_nesting() {
    let line = b("{ \"data\" : [1, {\"request_id\": 9}, \"x,}\"] , \"request_id\" : 42 , \"error\" : \"success\" }");
    assert_eq!(
        decode(&line),
        Ok(Inbound::Response {
            request_id: 42,
            error: b("success"),
            data: b("[1, {\"request_id\": 9}, \"x,}\"]"),
        })
    );
    let line = b("{\"request_id\":1,\"error\":\"success\"}");
    assert_eq!(decode(&line), Ok(Inbound::Response { request_id: 1, error: b("success"), data: vec![] }));
    let line = b("{\"request_id\":18446744073709551615,\"error\":\"success\",\"data\":null}");
    assert_eq!(
        decode(&line),
        Ok(Inbound::Response { request_id: u64::MAX, error: b("success"), data: b("null") })
    );
}

#[test]
fn decoder_reads_events() {
    let line = b("{\"event\":\"property-change\",\"id\":1,\"name\":\"volume\",\"data\":50}");
    assert_eq!(
        decode(&line),
        Ok(Inbound::Event(Event { name: b("property-change"), payload: line.clone() }))
    );
    let line = b("{\"data\":\"\\\"event\\\":\\\"x\\\"\",\"event\":\"seek\"}");
    match decode(&line) {
        Ok(Inbound::Event(e)) => assert_eq!(e.name, b("seek")),
        other => panic!("unexpected {:?}", other),
    }
}

#[test]
fn decoder_errors() {
    assert_eq!(decode(&b("")), Err(DecodeError::Malformed));
    assert_eq!(decode(&b("not json")), Err(DecodeError::Malformed));
    assert_eq!(decode(&b("{\"event\":\"pause\"")), Err(DecodeError::Malformed));
    assert_eq!(decode(&b("{\"event\":\"pause}")), Err(DecodeError::Malformed));
    assert_eq!(decode(&b("{}{}")), Err(DecodeError::Malformed));
    assert_eq!(decode(&b("{\"event\" \"pause\"}")), Err(DecodeError::Malformed));
    assert_eq!(decode(&b("{\"request_id\":-1,\"error\":\"success\"}")), Err(DecodeError::Unclassified));
    assert_eq!(decode(&b("{\"request_id\":18446744073709551616,\"error\":\"success\"}")), Err(DecodeError::Unclassified));
    assert_eq!(decode(&b("{\"request_id\":1,\"error\" \"x\"}")), Err(DecodeError::Malformed));
    assert_eq!(decode(&b("{\"request_id\":1,\"error\":5}")), Err(DecodeError::BadField));
    assert_eq!(decode(&b("{\"event\":5}")), Err(DecodeError::BadField));
    assert_eq!(decode(&b("{\"name\":\"volume\"}")), Err(DecodeError::Unclassified));
    assert_eq!(decode(&b("{\"x\":{\"event\":\"pause\"}}")), Err(DecodeError::Unclassified));
}

#[test]
fn bad_line_is_a_local_anomaly() {
    let mut s = open_at(1);
    s.submit(&b("a"), &vec![], 0, 100).unwrap();
    assert_eq!(s.on_line(&b("garbage")), Delivery::Anomaly(DecodeError::Malformed));
    assert!(s.is_pending(1));
    assert!(!s.closed());
}

#[test]
fn full_queue_drops_oldest_for_that_subscriber_only() {
    let mut r = EventRouter::new();
    let small = r.subscribe(2).unwrap();
    let big = r.subscribe(8).unwrap();
    for n in ["a", "b", "c"] {
        r.route(&Event { name: b(n), payload: b(n) });
    }
    assert_eq!(r.dropped_count(small), Some(1));
    assert_eq!(r.dropped_count(big), Some(0));
    assert_eq!(r.next_event(small).unwrap().name, b("b"));
    assert_eq!(r.next_event(small).unwrap().name, b("c"));
    assert!(r.next_event(small).is_none());
    for n in ["a", "b", "c"] {
        assert_eq!(r.next_event(big).unwrap().name, b(n));
    }
}

#[test]
fn zero_capacity_subscriber_drops_everything() {
    let mut r = EventRouter::new();
    let h = r.subscribe(0).unwrap();
    r.route(&Event { name: b("a"), payload: b("a") });
    assert!(r.next_event(h).is_none());
    assert_eq!(r.dropped_count(h), Some(1));
}

#[test]
fn unsubscribed_handle_gets_nothing() {
    let mut r = EventRouter::new();
    let h = r.subscribe(2).unwrap();
    let other = r.subscribe(2).unwrap();
    assert!(r.unsubscribe(h));
    assert!(!r.unsubscribe(h));
    r.route(&Event { name: b("a"), payload: b("a") });
    assert!(r.next_event(h).is_none());
    assert_eq!(r.dropped_count(h), None);
    assert_eq!(r.subscriber_count(), 1);
    assert_eq!(r.next_event(other).unwrap().name, b("a"));
}

#[test]
fn identity_mismatch_refuses_session() {
    assert_eq!(verify_identity(Some(100), Some(200)), Err(IdentityError::Mismatch { expected: 100, observed: 200 }));
    assert_eq!(verify_identity(Some(100), None), Err(IdentityError::Unknown { expected: 100 }));
    assert_eq!(verify_identity(Some(100), Some(100)), Ok(()));
    assert!(matches!(
        Session::open(Some(100), Some(200), 1),
        Err(IdentityError::Mismatch { expected: 100, observed: 200 })
    ));
}

#[test]
fn no_expected_pid_accepts_any_owner() {
    assert_eq!(verify_identity(None, Some(200)), Ok(()));
    assert_eq!(verify_identity(None, None), Ok(()));
    assert!(Session::open(None, None, 1).is_ok());
}

#[test]
fn correlator_expires_in_order_and_keeps_the_rest() {
    let mut c = Correlator::new(1);
    c.submit(0, 50);
    c.submit(10, 500);
    c.submit(20, 30);
    let done = c.expire(60);
    assert_eq!(
        done,
        vec![
            Completion { id: 1, outcome: Outcome::Timeout },
            Completion { id: 3, outcome: Outcome::Timeout },
        ]
    );
    assert_eq!(c.pending_count(), 1);
    assert!(c.is_pending(2));
}

#[test]
fn reply_without_error_member_is_success() {
    let mut s = open_at(7);
    let (id, _) = s.submit(&b("get_property"), &vec![b("volume")], 0, 2000).unwrap();
    assert_eq!(id, 7);
    let d = s.on_line(&b("{\"request_id\":7,\"data\":50}"));
    assert_eq!(d, Delivery::Resolved(Completion { id: 7, outcome: Outcome::Success(b("50")) }));
    assert!(!s.is_pending(7));
    assert_eq!(
        decode(&b("{\"request_id\":1}")),
        Ok(Inbound::Response { request_id: 1, error: b("success"), data: vec![] })
    );
}

#[test]
fn request_id_in_unknown_form_falls_back_to_event() {
    let line = b("{\"request_id\":\"abc\",\"event\":\"pause\"}");
    assert_eq!(decode(&line), Ok(Inbound::Event(Event { name: b("pause"), payload: line.clone() })));
    assert_eq!(decode(&b("{\"request_id\":\"abc\"}")), Err(DecodeError::Unclassified));
}

#[test]
fn subscribers_learn_that_the_session_ended() {
    let mut s = open_at(1);
    let h = s.subscribe(4).unwrap();
    assert_eq!(h, 0);
    assert_eq!(s.subscribe(4), Some(1));
    assert_eq!(s.poll_event(h), Feed::Waiting);
    assert_eq!(s.poll_event(99), Feed::Unknown);
    s.on_line(&b("{\"event\":\"pause\"}"));
    s.close();
    match s.poll_event(h) {
        Feed::Event(e) => assert_eq!(e.name, b("pause")),
        other => panic!("unexpected {:?}", other),
    }
    assert_eq!(s.poll_event(h), Feed::Ended);
}

#[test]
fn pipe_path_keeps_namespaced_paths() {
    assert_eq!(pipe_path(r"\\.\pipe\mpv", Some("mpv".to_string())), r"\\.\pipe\mpv");
}

#[test]
fn pipe_path_moves_file_name_into_namespace() {
    assert_eq!(pipe_path("/tmp/mpv-socket", Some("mpv-socket".to_string())), r"\\.\pipe\mpv-socket");
    assert_eq!(pipe_path("C:/x/player.sock", Some("player.sock".to_string())), r"\\.\pipe\player.sock");
    assert_eq!(pipe_path("/", None), r"\\.\pipe\mpv-socket");
    assert_eq!(pipe_path(r"\\.\pip", Some("pip".to_string())), r"\\.\pipe\pip");
}
