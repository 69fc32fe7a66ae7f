//! End-to-end exercises of the RPC substrate: envelope framing, the
//! dispatcher, the monitor bus and session, and the consumer's
//! receive/timeout/retry machine.

use flight_rpc::body::{
    Service1RequestBody, Service1ResponseBody, Service2ResponseBody, Service3ResponseBody,
    Service4MonitorResponseBody, ServiceFailedResponse,
};
use flight_rpc::consumer::{
    consumer_step, monitor_client_step, APIError, CallOutcome, MonitorCall, MonitorClientEvent,
    MonitorClientStep, PendingCall, ServiceConsumer, WireEvent,
};
use flight_rpc::decode::parse_json;
use flight_rpc::envelope::{
    decode_request, decode_response, encode_request, encode_response, IdCounter, RPCRequest,
    RPCResponse, ResponseStatus,
};
use flight_rpc::handler::{Dispatched, ServiceHandler};
use flight_rpc::monitor::{monitor_step, MonitorEvent, MonitorStep};
use flight_rpc::store::{seed_test_db_with_hardcode_data, DatabaseService};

fn seeded_handler(client: &str) -> ServiceHandler {
    let mut db = DatabaseService::new();
    seed_test_db_with_hardcode_data(&mut db);
    ServiceHandler::new(db, client.to_string())
}

fn reply_of(d: Dispatched) -> RPCResponse {
    match d {
        Dispatched::Reply(resp) => resp,
        Dispatched::Monitor(resp, _) => resp,
    }
}

fn body_node(resp: &RPCResponse) -> flight_rpc::json::JsonNode {
    resp.decode_body().unwrap()
}

#[test]
fn request_envelope_wire_form() {
    let mut ids = IdCounter::new();
    let mut req = RPCRequest::new(3, &mut ids);
    assert_eq!(req.id, 0);
    // the body rides as an array of byte values
    req.body = vec![0x7b, 0x7d];
    let wire = encode_request(&req);
    assert_eq!(
        String::from_utf8(wire.clone()).unwrap(),
        "{\"id\":0,\"service_type\":3,\"body\":[123,125]}"
    );
    let back = decode_request(&wire).unwrap();
    assert_eq!(back.id, 0);
    assert_eq!(back.service_type, 3);
    assert_eq!(back.body, vec![0x7b, 0x7d]);
}

#[test]
fn response_envelope_wire_form_and_field_order_freedom() {
    let mut ids = IdCounter::new();
    let resp = RPCResponse::finished(7, &mut ids);
    let wire = encode_response(&resp);
    assert_eq!(
        String::from_utf8(wire.clone()).unwrap(),
        "{\"id\":0,\"request_id\":7,\"status\":\"Finished\",\"body\":[]}"
    );
    let back = decode_response(&wire).unwrap();
    assert_eq!(back.request_id, 7);
    assert_eq!(back.status, ResponseStatus::Finished);

    // fields in another order, unknown keys ignored, duplicates
    // overwritten by the later occurrence
    let scrambled =
        b"{\"status\":\"Failed\",\"extra\":null,\"body\":[],\"request_id\":1,\"request_id\":2,\"id\":9}"
            .to_vec();
    let back = decode_response(&scrambled).unwrap();
    assert_eq!(back.request_id, 2);
    assert_eq!(back.status, ResponseStatus::Failed);

    // a missing field is an error
    let missing = b"{\"id\":9,\"request_id\":1,\"status\":\"Failed\"}".to_vec();
    assert!(decode_response(&missing).is_err());
    // an out-of-range byte in the body array is an error
    let bad = b"{\"id\":9,\"request_id\":1,\"status\":\"Failed\",\"body\":[256]}".to_vec();
    assert!(decode_response(&bad).is_err());
}

#[test]
fn query_returns_the_matching_flights() {
    let mut handler = seeded_handler("10.0.0.1:3000");
    let mut consumer = ServiceConsumer::new("127.0.0.1".to_string(), 1234, false);
    let req = consumer
        .build_request_service_1(&"LAS".to_string(), &"HAN".to_string());
    assert_eq!(
        String::from_utf8(req.body.clone()).unwrap(),
        "{\"source\":\"LAS\",\"destination\":\"HAN\"}"
    );
    let resp = reply_of(handler.dispatch(&req));
    assert_eq!(resp.request_id, req.id);
    assert_eq!(resp.status, ResponseStatus::Finished);
    assert_eq!(
        String::from_utf8(resp.body.clone()).unwrap(),
        "{\"flight_ids\":[1,8]}"
    );
    let body = Service1ResponseBody::from_json(&body_node(&resp)).unwrap();
    assert_eq!(body.flight_ids, vec![1, 8]);
}

#[test]
fn details_of_unknown_flight_fails() {
    let mut handler = seeded_handler("10.0.0.1:3000");
    let mut consumer = ServiceConsumer::new("127.0.0.1".to_string(), 1234, false);
    let req = consumer.build_request_service_2(999);
    let resp = reply_of(handler.dispatch(&req));
    assert_eq!(resp.request_id, req.id);
    assert_eq!(resp.status, ResponseStatus::Failed);
    let body = ServiceFailedResponse::from_json(&body_node(&resp)).unwrap();
    assert_eq!(body.error, "Requested resource does not exists");
}

#[test]
fn details_of_known_flight_carries_the_two_decimal_fare() {
    let mut handler = seeded_handler("10.0.0.1:3000");
    let mut consumer = ServiceConsumer::new("127.0.0.1".to_string(), 1234, false);
    let req = consumer.build_request_service_2(1);
    let resp = reply_of(handler.dispatch(&req));
    assert_eq!(resp.status, ResponseStatus::Finished);
    assert_eq!(
        String::from_utf8(resp.body.clone()).unwrap(),
        "{\"departure_time\":1680105600,\"airfare\":150.99,\"seat_avail\":500}"
    );
    let body = Service2ResponseBody::from_json(&body_node(&resp)).unwrap();
    assert_eq!(body.departure_time, 1680105600);
    assert_eq!(body.airfare_cents, 15099);
    assert_eq!(body.seat_avail, 500);
}

#[test]
fn reserve_twice_creates_then_updates() {
    let mut handler = seeded_handler("10.0.0.1:3000");
    let mut consumer = ServiceConsumer::new("127.0.0.1".to_string(), 1234, false);

    let before = handler.db_service.get_flight_info(1).unwrap().unwrap().2;

    let first = consumer.build_request_service_3(1, 5);
    let resp = reply_of(handler.dispatch(&first));
    assert_eq!(resp.status, ResponseStatus::Finished);
    let body = Service3ResponseBody::from_json(&body_node(&resp)).unwrap();
    assert_eq!(body.message, "Reservation created");

    let second = consumer.build_request_service_3(1, 5);
    assert_ne!(second.id, first.id);
    let resp = reply_of(handler.dispatch(&second));
    assert_eq!(resp.status, ResponseStatus::Finished);
    let body = Service3ResponseBody::from_json(&body_node(&resp)).unwrap();
    assert_eq!(body.message, "Reservation updated");

    let after = handler.db_service.get_flight_info(1).unwrap().unwrap().2;
    assert_eq!(after, before - 10);
}

#[test]
fn reservation_errors_map_to_failures() {
    let mut handler = seeded_handler("10.0.0.1:3000");
    let mut consumer = ServiceConsumer::new("127.0.0.1".to_string(), 1234, false);

    let zero = consumer.build_request_service_3(1, 0);
    let resp = reply_of(handler.dispatch(&zero));
    assert_eq!(resp.status, ResponseStatus::Failed);
    let body = ServiceFailedResponse::from_json(&body_node(&resp)).unwrap();
    assert_eq!(body.error, "Request parameters out of bounds");

    let missing = consumer.build_request_service_3(999, 1);
    let resp = reply_of(handler.dispatch(&missing));
    assert_eq!(resp.status, ResponseStatus::Failed);
    let body = ServiceFailedResponse::from_json(&body_node(&resp)).unwrap();
    assert_eq!(body.error, "Requested resource does not exists");

    let malformed = RPCRequest { id: 77, service_type: 3, body: b"{\"nope\":1}".to_vec() };
    let resp = reply_of(handler.dispatch(&malformed));
    assert_eq!(resp.request_id, 77);
    assert_eq!(resp.status, ResponseStatus::Failed);
    let body = ServiceFailedResponse::from_json(&body_node(&resp)).unwrap();
    assert_eq!(body.error, "Request deserialization error");
}

#[test]
fn an_update_the_store_cannot_hold_is_a_backend_failure() {
    let mut handler = seeded_handler("10.0.0.1:3000");
    let mut consumer = ServiceConsumer::new("127.0.0.1".to_string(), 1234, false);

    let reserve = consumer.build_request_service_3(1, 1);
    assert_eq!(reply_of(handler.dispatch(&reserve)).status, ResponseStatus::Finished);

    // the luggage counter saturates the 32-bit range exactly
    let fill = consumer.build_request_service_6(1, u32::MAX);
    assert_eq!(reply_of(handler.dispatch(&fill)).status, ResponseStatus::Finished);

    // one more kilogram cannot be represented
    let overflow = consumer.build_request_service_6(1, 1);
    let resp = reply_of(handler.dispatch(&overflow));
    assert_eq!(resp.status, ResponseStatus::Failed);
    let body = ServiceFailedResponse::from_json(&body_node(&resp)).unwrap();
    assert_eq!(body.error, "Internal database service error");
}

#[test]
fn unknown_service_type_draws_the_fixed_failure() {
    let mut handler = seeded_handler("10.0.0.1:3000");
    let req = RPCRequest { id: 5, service_type: 9, body: Vec::new() };
    let resp = reply_of(handler.dispatch(&req));
    assert_eq!(resp.request_id, 5);
    assert_eq!(resp.status, ResponseStatus::Failed);
    assert_eq!(
        String::from_utf8(resp.body.clone()).unwrap(),
        "\"Invalid service type\""
    );
}

#[test]
fn monitor_sees_the_update_then_the_window_ends() {
    // client A subscribes to flight 1; client B reserves on it
    let mut handler = seeded_handler("10.0.0.2:4000");
    let mut client_a = ServiceConsumer::new("127.0.0.1".to_string(), 1234, false);
    let mut client_b = ServiceConsumer::new("127.0.0.1".to_string(), 1234, false);

    let sub = client_a.build_request_service_4(1, 10);
    let (ack, session) = match handler.dispatch(&sub) {
        Dispatched::Monitor(ack, session) => (ack, session),
        Dispatched::Reply(resp) => panic!("expected a session, got {:?}", resp.status),
    };
    assert_eq!(ack.request_id, sub.id);
    assert_eq!(ack.status, ResponseStatus::Finished);
    let body = Service3ResponseBody::from_json(&body_node(&ack)).unwrap();
    assert_eq!(body.message, "Monitor service successfully established");
    assert!(handler.bus.fresh_keys_left());
    let key = handler.bus.subscribe();

    handler.client_addr = "10.0.0.3:5000".to_string();
    let reserve = client_b.build_request_service_3(1, 5);
    let resp = reply_of(handler.dispatch(&reserve));
    assert_eq!(resp.status, ResponseStatus::Finished);

    // the session drains its queue and emits one update, in order
    let ev = handler.bus.try_recv(key).unwrap();
    let step = monitor_step(
        &session,
        &handler.db_service,
        MonitorEvent::BusEvent(ev.0, ev.1),
        &mut handler.response_ids,
    );
    let update = match step {
        MonitorStep::Emit(resp) => resp,
        _ => panic!("expected an update"),
    };
    assert_eq!(update.request_id, sub.id);
    assert_eq!(update.status, ResponseStatus::Updated);
    let body = Service4MonitorResponseBody::from_json(&body_node(&update)).unwrap();
    assert_eq!(body.seat_avail, 495);

    // no further event is pending, and the elapsed window ends it
    assert!(handler.bus.try_recv(key).is_none());
    let step = monitor_step(
        &session,
        &handler.db_service,
        MonitorEvent::WindowElapsed,
        &mut handler.response_ids,
    );
    assert!(matches!(step, MonitorStep::End));
    handler.bus.unsubscribe(key);
    assert!(handler.bus.try_recv(key).is_none());
}

#[test]
fn the_bus_broadcasts_to_every_subscription() {
    // two concurrent monitor sessions each get their own copy of an
    // event: one draining takes nothing from the other
    let mut handler = seeded_handler("10.0.0.3:5000");
    let mut consumer = ServiceConsumer::new("127.0.0.1".to_string(), 1234, false);
    let key_a = handler.bus.subscribe();
    let key_b = handler.bus.subscribe();
    assert_ne!(key_a, key_b);

    let reserve = consumer.build_request_service_3(1, 2);
    assert_eq!(reply_of(handler.dispatch(&reserve)).status, ResponseStatus::Finished);

    let ev_a = handler.bus.try_recv(key_a).unwrap();
    assert_eq!(ev_a.0, 1);
    // the other subscription still holds its copy
    let ev_b = handler.bus.try_recv(key_b).unwrap();
    assert_eq!(ev_b.0, 1);
    assert!(handler.bus.try_recv(key_a).is_none());
    assert!(handler.bus.try_recv(key_b).is_none());

    // a queue past its capacity silently drops further events
    for _ in 0..40 {
        let again = consumer.build_request_service_3(1, 1);
        reply_of(handler.dispatch(&again));
    }
    let mut drained = 0;
    while handler.bus.try_recv(key_a).is_some() {
        drained += 1;
    }
    assert_eq!(drained, 32);
}

#[test]
fn monitor_ignores_other_flights_and_unknown_flight_is_refused() {
    let mut handler = seeded_handler("10.0.0.2:4000");
    let mut client = ServiceConsumer::new("127.0.0.1".to_string(), 1234, false);

    let bad = client.build_request_service_4(999, 10);
    let resp = reply_of(handler.dispatch(&bad));
    assert_eq!(resp.status, ResponseStatus::Failed);
    let body = ServiceFailedResponse::from_json(&body_node(&resp)).unwrap();
    assert_eq!(body.error, "Requested resource does not exists");

    let sub = client.build_request_service_4(1, 10);
    let session = match handler.dispatch(&sub) {
        Dispatched::Monitor(_, session) => session,
        _ => panic!("expected a session"),
    };
    let step = monitor_step(
        &session,
        &handler.db_service,
        MonitorEvent::BusEvent(2, flight_rpc::store::ReservationStatus::Updated),
        &mut handler.response_ids,
    );
    assert!(matches!(step, MonitorStep::Ignore));
}

#[test]
fn timeout_resolves_after_the_budget_and_retry_reissues() {
    let retrying = ServiceConsumer::new("127.0.0.1".to_string(), 1234, true);
    let fixed = ServiceConsumer::new("127.0.0.1".to_string(), 1234, false);

    let mut call = PendingCall { request_id: 12, service_type: 2, elapsed_secs: 0 };
    for _ in 0..5 {
        let step = consumer_step(&mut call, WireEvent::TimedOutSecond);
        assert!(matches!(step, CallOutcome::KeepWaiting));
    }
    let step = consumer_step(&mut call, WireEvent::TimedOutSecond);
    let timed_out = match step {
        CallOutcome::CallFailed(e) => e,
        _ => panic!("expected a failure"),
    };
    assert_eq!(timed_out, APIError::TimeOutError);

    // only the timeout, and only under the retry policy, is re-issued
    assert!(retrying.should_retry(&CallOutcome::CallFailed(APIError::TimeOutError)));
    assert!(!fixed.should_retry(&CallOutcome::CallFailed(APIError::TimeOutError)));
    assert!(!retrying.should_retry(&CallOutcome::CallFailed(APIError::IOFailed)));

    // with the loss gone, the re-issued call settles on the response
    let mut handler = seeded_handler("10.0.0.1:3000");
    let mut consumer = ServiceConsumer::new("127.0.0.1".to_string(), 1234, true);
    let req = consumer.build_request_service_2(1);
    let resp = reply_of(handler.dispatch(&req));
    let wire = encode_response(&resp);
    let mut call = PendingCall { request_id: req.id, service_type: 2, elapsed_secs: 0 };
    let step = consumer_step(&mut call, WireEvent::Datagram(wire));
    match step {
        CallOutcome::Settled(settled) => {
            assert_eq!(settled.request_id, req.id);
            assert_eq!(settled.status, ResponseStatus::Finished);
        }
        _ => panic!("expected the call to settle"),
    }
}

#[test]
fn stray_request_id_is_dropped_and_the_wait_goes_on() {
    let mut handler = seeded_handler("10.0.0.1:3000");
    let mut consumer = ServiceConsumer::new("127.0.0.1".to_string(), 1234, false);
    let req = consumer.build_request_service_2(1);
    let resp = reply_of(handler.dispatch(&req));
    let wire = encode_response(&resp);

    // same datagram, but the call awaits a different request id
    let mut call = PendingCall { request_id: req.id + 1, service_type: 2, elapsed_secs: 3 };
    let step = consumer_step(&mut call, WireEvent::Datagram(wire));
    assert!(matches!(step, CallOutcome::KeepWaiting));
    assert_eq!(call.elapsed_secs, 3);
    assert_eq!(call.request_id, req.id + 1);

    // transport trouble resolves the call instead
    let mut call = PendingCall { request_id: 1, service_type: 2, elapsed_secs: 0 };
    let step = consumer_step(&mut call, WireEvent::SocketError);
    match step {
        CallOutcome::CallFailed(e) => assert_eq!(e, APIError::IOFailed),
        _ => panic!("expected a failure"),
    }
    let step = consumer_step(&mut call, WireEvent::Datagram(b"not json".to_vec()));
    match step {
        CallOutcome::CallFailed(e) => assert_eq!(e, APIError::IOFailed),
        _ => panic!("expected a failure"),
    }
}

#[test]
fn monitor_client_follows_the_session() {
    let mut handler = seeded_handler("10.0.0.1:3000");
    let mut consumer = ServiceConsumer::new("127.0.0.1".to_string(), 1234, false);
    let sub = consumer.build_request_service_4(1, 10);
    let (ack, session) = match handler.dispatch(&sub) {
        Dispatched::Monitor(ack, session) => (ack, session),
        _ => panic!("expected a session"),
    };

    let mut call = MonitorCall { request_id: sub.id, ack: false, retry: false };
    // an unacknowledged timeout without retry stops the wait
    let mut probe = MonitorCall { request_id: sub.id, ack: false, retry: false };
    assert_eq!(
        monitor_client_step(&mut probe, MonitorClientEvent::AckTimeout),
        MonitorClientStep::Stop
    );

    // stray envelopes with a foreign request id are silently dropped,
    // whatever their status: neither an acknowledgement nor an end
    let mut ids = flight_rpc::envelope::IdCounter::new();
    let stray_fail = flight_rpc::envelope::RPCResponse::failed(sub.id + 1, &mut ids);
    let step = monitor_client_step(
        &mut call,
        MonitorClientEvent::Datagram(encode_response(&stray_fail)),
    );
    assert_eq!(step, MonitorClientStep::Continue);
    assert!(!call.ack);
    let stray_fin = flight_rpc::envelope::RPCResponse::finished(sub.id + 1, &mut ids);
    let step = monitor_client_step(
        &mut call,
        MonitorClientEvent::Datagram(encode_response(&stray_fin)),
    );
    assert_eq!(step, MonitorClientStep::Continue);
    assert!(!call.ack);

    // the acknowledgement arrives
    let step = monitor_client_step(&mut call, MonitorClientEvent::Datagram(encode_response(&ack)));
    assert_eq!(step, MonitorClientStep::Continue);
    assert!(call.ack);

    // an update arrives
    let key = handler.bus.subscribe();
    handler.client_addr = "10.9.9.9:1".to_string();
    let reserve = consumer.build_request_service_3(1, 7);
    reply_of(handler.dispatch(&reserve));
    let ev = handler.bus.try_recv(key).unwrap();
    let update = match monitor_step(
        &session,
        &handler.db_service,
        MonitorEvent::BusEvent(ev.0, ev.1),
        &mut handler.response_ids,
    ) {
        MonitorStep::Emit(resp) => resp,
        _ => panic!("expected an update"),
    };
    let step = monitor_client_step(
        &mut call,
        MonitorClientEvent::Datagram(encode_response(&update)),
    );
    assert_eq!(step, MonitorClientStep::Update(493));

    // garbage is skipped; the window elapsing ends the session
    let step = monitor_client_step(&mut call, MonitorClientEvent::Datagram(b"{{".to_vec()));
    assert_eq!(step, MonitorClientStep::Continue);
    assert_eq!(
        monitor_client_step(&mut call, MonitorClientEvent::WindowElapsed),
        MonitorClientStep::Stop
    );
}

#[test]
fn string_bodies_cross_the_wire_as_utf8() {
    // a body with escapes decodes into the unescaped text
    let doc = parse_json(&b"{\"error\":\"line\\none \\\"two\\\"\"}".to_vec()).unwrap();
    let body = ServiceFailedResponse::from_json(&doc).unwrap();
    assert_eq!(body.error, "line\none \"two\"");

    // a string of invalid UTF-8 bytes is refused at the text boundary
    let doc = parse_json(&vec![0x7b, 0x22, 0x65, 0x72, 0x72, 0x6f, 0x72, 0x22, 0x3a, 0x22, 0xff,
        0x22, 0x7d]).unwrap();
    assert!(ServiceFailedResponse::from_json(&doc).is_err());

    // multi-byte text survives the round trip
    let mut consumer = ServiceConsumer::new("127.0.0.1".to_string(), 1234, false);
    let req = consumer.build_request_service_1(&"Zürich".to_string(), &"東京".to_string());
    let doc = parse_json(&req.body).unwrap();
    let body = Service1RequestBody::from_json(&doc).unwrap();
    assert_eq!(body.source, "Zürich");
    assert_eq!(body.destination, "東京");
}
