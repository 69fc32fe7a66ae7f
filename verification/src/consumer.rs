//! The client-side consumer: request building, the receive/timeout
//! machine, and the retry policy.
//!
//! A call sends one datagram and then waits. Each wait lasts at most
//! one second; a timed-out second raises the elapsed counter, and past
//! five seconds the call resolves as a timeout. An arriving datagram
//! is accepted only when its `request_id` matches the outstanding
//! request — anything else is silently dropped and the wait goes on. A
//! matching terminal envelope settles the call; a matching `Updated`
//! envelope on these services is a protocol oddity, noted and skipped
//! without restarting the budget. Transport trouble — an unreadable
//! datagram, a socket error — resolves the call as an input/output
//! failure.
//!
//! The retry policy re-issues a timed-out call with a fresh request
//! id; no other failure is retried. Sockets and clocks stay outside:
//! the machine is driven with plain events.

use vstd::prelude::*;

use crate::body::{
    f_cents, f_i32, f_string, f_u32, f_u32_arr, key_airfare, key_departure_time, key_destination,
    key_error, key_flight_id, key_flight_ids, key_message, key_seat_avail, key_source,
    obj1_from_val, obj3_from_val, service1_request_val, service3_request_val,
    service4_request_val, service6_request_val, Service1RequestBody, Service1ResponseBody,
    Service2RequestBody, Service2ResponseBody, Service3RequestBody, Service3ResponseBody,
    Service4MonitorResponseBody, Service4RequestBody, Service5RequestBody, Service5ResponseBody,
    Service6RequestBody, Service6ResponseBody, ServiceFailedResponse,
};
use crate::decode::spec_parse;
use crate::encode::enc_val;
use crate::envelope::{
    decode_response, resp_from_val, IdCounter, RPCRequest, RPCResponse, RespV, ResponseStatus,
};
use crate::json::JsonNode;

verus! {

broadcast use vstd::std_specs::vec::group_vec_axioms, vstd::seq::group_seq_axioms;

/// The client-side error kinds.
#[derive(Clone, Copy, PartialEq, Eq, Structural, Debug)]
pub enum APIError {
    MalformedRequest,
    RecordNotFound,
    ParametersOutOfBounds,
    IOFailed,
    TimeOutError,
}

impl APIError {
    /// The human-readable message of this error.
    pub fn message(&self) -> (r: String)
        ensures
            *self == APIError::MalformedRequest ==> r@ == "Request deserialization error"@,
            *self == APIError::RecordNotFound ==> r@ == "Requested resource does not exists"@,
            *self == APIError::ParametersOutOfBounds ==> r@ == "Request parameters out of bounds"@,
            *self == APIError::IOFailed ==> r@ == "Failed to get response from server"@,
            *self == APIError::TimeOutError ==> r@ == "Request time out, message might be loss"@,
    {
        match self {
            APIError::MalformedRequest => String::from_str("Request deserialization error"),
            APIError::RecordNotFound => String::from_str("Requested resource does not exists"),
            APIError::ParametersOutOfBounds => String::from_str(
                "Request parameters out of bounds",
            ),
            APIError::IOFailed => String::from_str("Failed to get response from server"),
            APIError::TimeOutError => String::from_str("Request time out, message might be loss"),
        }
    }
}

/// Seconds of waiting a call is allowed before it times out.
pub const TIME_OUT_SECS: u32 = 5;

/// The consumer's standing configuration: where the server is, whether
/// timed-out calls are re-issued, and the request-id source.
pub struct ServiceConsumer {
    pub host_addr: String,
    pub port_addr: u16,
    pub retry: bool,
    pub request_ids: IdCounter,
}

impl ServiceConsumer {
    pub fn new(host_addr: String, port_addr: u16, retry: bool) -> (r: ServiceConsumer)
        ensures
            r.host_addr@ == host_addr@,
            r.port_addr == port_addr,
            r.retry == retry,
            r.request_ids.next_id() == 0,
    {
        ServiceConsumer { host_addr, port_addr, retry, request_ids: IdCounter::new() }
    }

    /// Builds a query request with a fresh id.
    pub fn build_request_service_1(&mut self, source: &String, destination: &String) -> (r:
        RPCRequest)
        ensures
            r@.id == old(self).request_ids.next_id(),
            r@.service_type == 1,
            r@.body == enc_val(service1_request_val(source@, destination@)),
            final(self).request_ids.next_id() == crate::envelope::next_id_after(
                old(self).request_ids.next_id(),
            ),
            final(self).host_addr@ == old(self).host_addr@,
            final(self).port_addr == old(self).port_addr,
            final(self).retry == old(self).retry,
    {
        let mut req: RPCRequest = RPCRequest::new(1, &mut self.request_ids);
        let body = Service1RequestBody {
            source: clone_string(source),
            destination: clone_string(destination),
        };
        let node: JsonNode = body.to_json();
        proof {
            lemma_two_string_body_wf(source@, destination@);
        }
        req.encode_body(&node);
        req
    }

    /// Builds a details request with a fresh id.
    pub fn build_request_service_2(&mut self, flight_id: u32) -> (r: RPCRequest)
        ensures
            r@.id == old(self).request_ids.next_id(),
            r@.service_type == 2,
            r@.body == enc_val(crate::body::flight_id_body_val(flight_id)),
            final(self).request_ids.next_id() == crate::envelope::next_id_after(
                old(self).request_ids.next_id(),
            ),
            final(self).host_addr@ == old(self).host_addr@,
            final(self).port_addr == old(self).port_addr,
            final(self).retry == old(self).retry,
    {
        let mut req: RPCRequest = RPCRequest::new(2, &mut self.request_ids);
        let body = Service2RequestBody { flight_id };
        let node: JsonNode = body.to_json();
        proof {
            lemma_one_u32_body_wf(key_flight_id(), flight_id);
        }
        req.encode_body(&node);
        req
    }

    /// Builds a reservation request with a fresh id.
    pub fn build_request_service_3(&mut self, flight_id: u32, num_seat: u32) -> (r: RPCRequest)
        ensures
            r@.id == old(self).request_ids.next_id(),
            r@.service_type == 3,
            r@.body == enc_val(service3_request_val(flight_id, num_seat)),
            final(self).request_ids.next_id() == crate::envelope::next_id_after(
                old(self).request_ids.next_id(),
            ),
            final(self).host_addr@ == old(self).host_addr@,
            final(self).port_addr == old(self).port_addr,
            final(self).retry == old(self).retry,
    {
        let mut req: RPCRequest = RPCRequest::new(3, &mut self.request_ids);
        let body = Service3RequestBody { flight_id, num_seat };
        let node: JsonNode = body.to_json();
        proof {
            lemma_two_u32_body_wf(key_flight_id(), flight_id, crate::body::key_num_seat(), num_seat);
        }
        req.encode_body(&node);
        req
    }

    /// Builds a monitor request with a fresh id.
    pub fn build_request_service_4(&mut self, flight_id: u32, monitor_interval: u32) -> (r:
        RPCRequest)
        ensures
            r@.id == old(self).request_ids.next_id(),
            r@.service_type == 4,
            r@.body == enc_val(service4_request_val(flight_id, monitor_interval)),
            final(self).request_ids.next_id() == crate::envelope::next_id_after(
                old(self).request_ids.next_id(),
            ),
            final(self).host_addr@ == old(self).host_addr@,
            final(self).port_addr == old(self).port_addr,
            final(self).retry == old(self).retry,
    {
        let mut req: RPCRequest = RPCRequest::new(4, &mut self.request_ids);
        let body = Service4RequestBody { flight_id, monitor_interval };
        let node: JsonNode = body.to_json();
        proof {
            lemma_two_u32_body_wf(
                key_flight_id(),
                flight_id,
                crate::body::key_monitor_interval(),
                monitor_interval,
            );
        }
        req.encode_body(&node);
        req
    }

    /// Builds a cancellation request with a fresh id.
    pub fn build_request_service_5(&mut self, flight_id: u32) -> (r: RPCRequest)
        ensures
            r@.id == old(self).request_ids.next_id(),
            r@.service_type == 5,
            r@.body == enc_val(crate::body::flight_id_body_val(flight_id)),
            final(self).request_ids.next_id() == crate::envelope::next_id_after(
                old(self).request_ids.next_id(),
            ),
            final(self).host_addr@ == old(self).host_addr@,
            final(self).port_addr == old(self).port_addr,
            final(self).retry == old(self).retry,
    {
        let mut req: RPCRequest = RPCRequest::new(5, &mut self.request_ids);
        let body = Service5RequestBody { flight_id };
        let node: JsonNode = body.to_json();
        proof {
            lemma_one_u32_body_wf(key_flight_id(), flight_id);
        }
        req.encode_body(&node);
        req
    }

    /// Builds a luggage request with a fresh id.
    pub fn build_request_service_6(&mut self, flight_id: u32, amount_in_kg: u32) -> (r: RPCRequest)
        ensures
            r@.id == old(self).request_ids.next_id(),
            r@.service_type == 6,
            r@.body == enc_val(service6_request_val(flight_id, amount_in_kg)),
            final(self).request_ids.next_id() == crate::envelope::next_id_after(
                old(self).request_ids.next_id(),
            ),
            final(self).host_addr@ == old(self).host_addr@,
            final(self).port_addr == old(self).port_addr,
            final(self).retry == old(self).retry,
    {
        let mut req: RPCRequest = RPCRequest::new(6, &mut self.request_ids);
        let body = Service6RequestBody { flight_id, amount_in_kg };
        let node: JsonNode = body.to_json();
        proof {
            lemma_two_u32_body_wf(
                key_flight_id(),
                flight_id,
                crate::body::key_amount_in_kg(),
                amount_in_kg,
            );
        }
        req.encode_body(&node);
        req
    }

    /// Whether a resolved call is re-issued: only a timeout, and only
    /// under the retry policy.
    pub fn should_retry(&self, outcome: &CallOutcome) -> (r: bool)
        ensures
            r == (self.retry && *outcome == CallOutcome::CallFailed(APIError::TimeOutError)),
    {
        self.retry && match outcome {
            CallOutcome::CallFailed(e) => *e == APIError::TimeOutError,
            _ => false,
        }
    }
}

/// A field-for-field string copy.
fn clone_string(s: &String) -> (r: String)
    ensures
        r@ == s@,
{
    s.clone()
}

/// A one-unsigned-field body is always emittable.
pub proof fn lemma_one_u32_body_wf(k: Seq<u8>, x: u32)
    ensures
        crate::encode::enc_wf(crate::body::obj1_val(k, crate::json::JsonVal::UInt(x as u64))),
{
    let m = seq![(k, crate::json::JsonVal::UInt(x as u64))];
    assert(m.drop_last() =~= Seq::<(Seq<u8>, crate::json::JsonVal)>::empty());
    assert(crate::encode::obj_wf(m)) by {
        reveal_with_fuel(crate::encode::obj_wf, 3);
        reveal_with_fuel(crate::encode::enc_wf, 2);
    }
}

/// A two-unsigned-field body is always emittable.
pub proof fn lemma_two_u32_body_wf(k1: Seq<u8>, x1: u32, k2: Seq<u8>, x2: u32)
    ensures
        crate::encode::enc_wf(
            crate::body::obj2_val(
                k1,
                crate::json::JsonVal::UInt(x1 as u64),
                k2,
                crate::json::JsonVal::UInt(x2 as u64),
            ),
        ),
{
    let m = seq![
        (k1, crate::json::JsonVal::UInt(x1 as u64)),
        (k2, crate::json::JsonVal::UInt(x2 as u64)),
    ];
    assert(m.drop_last() =~= seq![(k1, crate::json::JsonVal::UInt(x1 as u64))]);
    assert(m.drop_last().drop_last() =~= Seq::<(Seq<u8>, crate::json::JsonVal)>::empty());
    assert(crate::encode::obj_wf(m)) by {
        reveal_with_fuel(crate::encode::obj_wf, 4);
        reveal_with_fuel(crate::encode::enc_wf, 2);
    }
}

/// A two-string-field body is always emittable.
pub proof fn lemma_two_string_body_wf(s1: Seq<char>, s2: Seq<char>)
    ensures
        crate::encode::enc_wf(service1_request_val(s1, s2)),
{
    let m = seq![
        (key_source(), crate::body::string_val(s1)),
        (key_destination(), crate::body::string_val(s2)),
    ];
    assert(m.drop_last() =~= seq![(key_source(), crate::body::string_val(s1))]);
    assert(m.drop_last().drop_last() =~= Seq::<(Seq<u8>, crate::json::JsonVal)>::empty());
    assert(crate::encode::obj_wf(m)) by {
        reveal_with_fuel(crate::encode::obj_wf, 4);
        reveal_with_fuel(crate::encode::enc_wf, 2);
    }
}

/// One outstanding non-monitor call: its correlation key, its service
/// tag, and the seconds already waited.
pub struct PendingCall {
    pub request_id: u32,
    pub service_type: u8,
    pub elapsed_secs: u32,
}

/// What the transport hands the waiting consumer.
pub enum WireEvent {
    /// A datagram arrived, whoever sent it.
    Datagram(Vec<u8>),
    /// One second of waiting passed without a datagram.
    TimedOutSecond,
    /// The socket failed.
    SocketError,
}

/// How one step of the receive loop resolves.
#[derive(Debug)]
pub enum CallOutcome {
    /// Nothing decisive: wait for the next event.
    KeepWaiting,
    /// A matching terminal envelope with a readable body: the call is
    /// settled and this is the response.
    Settled(RPCResponse),
    /// The call failed with this error.
    CallFailed(APIError),
}

/// The response a datagram carries, if it parses as one.
pub open spec fn resp_of(bytes: Seq<u8>) -> Option<RespV> {
    match spec_parse(bytes) {
        None => None,
        Some(doc) => resp_from_val(doc),
    }
}

/// Whether a settled body is readable under the service's schema.
pub open spec fn body_valid(service_type: u8, status: ResponseStatus, body: Seq<u8>) -> bool {
    match spec_parse(body) {
        None => false,
        Some(doc) => match status {
            ResponseStatus::Failed => obj1_from_val(doc, key_error(), f_string()) is Some,
            ResponseStatus::Finished => if service_type == 1 {
                obj1_from_val(doc, key_flight_ids(), f_u32_arr()) is Some
            } else if service_type == 2 {
                obj3_from_val(
                    doc,
                    key_departure_time(),
                    f_i32(),
                    key_airfare(),
                    f_cents(),
                    key_seat_avail(),
                    f_u32(),
                ) is Some
            } else {
                obj1_from_val(doc, key_message(), f_string()) is Some
            },
            ResponseStatus::Updated => false,
        },
    }
}

/// Checks a settled body against the service's schema.
fn validate_body(service_type: u8, status: ResponseStatus, resp: &RPCResponse) -> (r: bool)
    requires
        status == resp@.status,
    ensures
        r == body_valid(service_type, status, resp@.body),
{
    let node: JsonNode = match resp.decode_body() {
        Ok(n) => n,
        Err(_) => {
            return false;
        }
    };
    match status {
        ResponseStatus::Failed => ServiceFailedResponse::from_json(&node).is_ok(),
        ResponseStatus::Finished => {
            if service_type == 1 {
                Service1ResponseBody::from_json(&node).is_ok()
            } else if service_type == 2 {
                Service2ResponseBody::from_json(&node).is_ok()
            } else {
                Service3ResponseBody::from_json(&node).is_ok()
            }
        }
        ResponseStatus::Updated => false,
    }
}

/// Drives one step of the receive/timeout loop for services other
/// than the monitor.
///
/// Exactly as the protocol demands: a timed-out second raises the
/// elapsed counter and past [`TIME_OUT_SECS`] the call times out; a
/// socket failure is an input/output failure; a datagram that does not
/// parse as a response is an input/output failure; a response whose
/// `request_id` is not the outstanding one is dropped without any
/// other effect; a matching `Updated` is skipped; a matching terminal
/// envelope settles the call when its body fits the service's schema
/// and is an input/output failure otherwise.
pub fn consumer_step(call: &mut PendingCall, ev: WireEvent) -> (r: CallOutcome)
    requires
        old(call).elapsed_secs <= TIME_OUT_SECS + 1,
    ensures
        final(call).request_id == old(call).request_id,
        final(call).service_type == old(call).service_type,
        // the correlation discipline: a call settles only on an
        // envelope that echoes its own request id
        r is Settled ==> r->Settled_0@.request_id == old(call).request_id,
        match ev {
            WireEvent::TimedOutSecond => final(call).elapsed_secs == old(call).elapsed_secs + 1 && (
            if old(call).elapsed_secs + 1 > TIME_OUT_SECS {
                r == CallOutcome::CallFailed(APIError::TimeOutError)
            } else {
                r == CallOutcome::KeepWaiting
            }),
            WireEvent::SocketError => r == CallOutcome::CallFailed(APIError::IOFailed) && final(call).elapsed_secs == old(call).elapsed_secs,
            WireEvent::Datagram(bytes) => final(call).elapsed_secs == old(call).elapsed_secs
                && match resp_of(bytes@) {
                None => r == CallOutcome::CallFailed(APIError::IOFailed),
                Some(resp) => if resp.request_id != old(call).request_id {
                    r == CallOutcome::KeepWaiting
                } else if resp.status == ResponseStatus::Updated {
                    r == CallOutcome::KeepWaiting
                } else if body_valid(old(call).service_type, resp.status, resp.body) {
                    r is Settled && r->Settled_0@ == resp
                } else {
                    r == CallOutcome::CallFailed(APIError::IOFailed)
                },
            },
        },
{
    match ev {
        WireEvent::TimedOutSecond => {
            call.elapsed_secs = call.elapsed_secs + 1;
            if call.elapsed_secs > TIME_OUT_SECS {
                CallOutcome::CallFailed(APIError::TimeOutError)
            } else {
                CallOutcome::KeepWaiting
            }
        }
        WireEvent::SocketError => CallOutcome::CallFailed(APIError::IOFailed),
        WireEvent::Datagram(bytes) => {
            let resp: RPCResponse = match decode_response(&bytes) {
                Ok(resp) => resp,
                Err(_) => {
                    return CallOutcome::CallFailed(APIError::IOFailed);
                }
            };
            if resp.request_id != call.request_id {
                return CallOutcome::KeepWaiting;
            }
            match resp.status {
                ResponseStatus::Updated => CallOutcome::KeepWaiting,
                status => {
                    if validate_body(call.service_type, status, &resp) {
                        CallOutcome::Settled(resp)
                    } else {
                        CallOutcome::CallFailed(APIError::IOFailed)
                    }
                }
            }
        }
    }
}

/// One running monitor subscription on the client side: whether the
/// acknowledgement arrived yet, and the retry policy.
pub struct MonitorCall {
    pub request_id: u32,
    pub ack: bool,
    pub retry: bool,
}

/// What the transport hands a waiting monitor client.
pub enum MonitorClientEvent {
    /// A datagram arrived.
    Datagram(Vec<u8>),
    /// The acknowledgement wait timed out.
    AckTimeout,
    /// The monitoring window elapsed.
    WindowElapsed,
    /// The socket failed.
    SocketError,
}

/// How one step of the monitor client resolves.
#[derive(PartialEq, Eq, Structural, Debug)]
pub enum MonitorClientStep {
    /// Keep listening.
    Continue,
    /// A seat-count update arrived: note it and keep listening.
    Update(u32),
    /// The subscription is over.
    Stop,
}

/// Drives one step of the client's monitor loop.
///
/// The correlation discipline holds here as on every call: an envelope
/// is accepted only when its `request_id` echoes the subscription's
/// own request; any other is silently dropped and the wait goes on.
/// The window elapsing always ends the subscription; so does a socket
/// failure, a received failure envelope, or an unacknowledged timeout
/// without the retry policy. An unreadable datagram is noted and
/// skipped. A success envelope marks the subscription acknowledged;
/// an `Updated` envelope with a readable body carries the fresh seat
/// count out.
pub fn monitor_client_step(call: &mut MonitorCall, ev: MonitorClientEvent) -> (r: MonitorClientStep)
    ensures
        final(call).request_id == old(call).request_id,
        final(call).retry == old(call).retry,
        match ev {
            MonitorClientEvent::WindowElapsed => r == MonitorClientStep::Stop && final(call).ack
                == old(call).ack,
            MonitorClientEvent::SocketError => r == MonitorClientStep::Stop && final(call).ack
                == old(call).ack,
            MonitorClientEvent::AckTimeout => final(call).ack == old(call).ack && (if !old(call).ack && !old(call).retry {
                r == MonitorClientStep::Stop
            } else {
                r == MonitorClientStep::Continue
            }),
            MonitorClientEvent::Datagram(bytes) => match resp_of(bytes@) {
                None => r == MonitorClientStep::Continue && final(call).ack == old(call).ack,
                Some(resp) => if resp.request_id != old(call).request_id {
                    r == MonitorClientStep::Continue && final(call).ack == old(call).ack
                } else {
                    match resp.status {
                        ResponseStatus::Finished => r == MonitorClientStep::Continue && final(call).ack == true,
                        ResponseStatus::Failed => r == MonitorClientStep::Stop && final(call).ack
                            == old(call).ack,
                        ResponseStatus::Updated => final(call).ack == old(call).ack && (match
                            monitor_update_of(resp.body) {
                            Some(seats) => r == MonitorClientStep::Update(seats),
                            None => r == MonitorClientStep::Continue,
                        }),
                    }
                },
            },
        },
{
    match ev {
        MonitorClientEvent::WindowElapsed => MonitorClientStep::Stop,
        MonitorClientEvent::SocketError => MonitorClientStep::Stop,
        MonitorClientEvent::AckTimeout => {
            if !call.ack && !call.retry {
                MonitorClientStep::Stop
            } else {
                MonitorClientStep::Continue
            }
        }
        MonitorClientEvent::Datagram(bytes) => {
            let resp: RPCResponse = match decode_response(&bytes) {
                Ok(resp) => resp,
                Err(_) => {
                    return MonitorClientStep::Continue;
                }
            };
            if resp.request_id != call.request_id {
                return MonitorClientStep::Continue;
            }
            match resp.status {
                ResponseStatus::Finished => {
                    call.ack = true;
                    MonitorClientStep::Continue
                }
                ResponseStatus::Failed => MonitorClientStep::Stop,
                ResponseStatus::Updated => {
                    let node: JsonNode = match resp.decode_body() {
                        Ok(n) => n,
                        Err(_) => {
                            return MonitorClientStep::Continue;
                        }
                    };
                    match Service4MonitorResponseBody::from_json(&node) {
                        Ok(b) => MonitorClientStep::Update(b.seat_avail),
                        Err(_) => MonitorClientStep::Continue,
                    }
                }
            }
        }
    }
}

/// The seat count an `Updated` body carries, if readable.
pub open spec fn monitor_update_of(body: Seq<u8>) -> Option<u32> {
    match spec_parse(body) {
        None => None,
        Some(doc) => obj1_from_val(doc, key_seat_avail(), f_u32()),
    }
}

} // verus!
