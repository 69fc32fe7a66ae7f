//! The server-side dispatcher and service handlers.
//!
//! [`ServiceHandler::dispatch`] routes one well-formed request by its
//! service tag, invokes the reservation store, and yields exactly one
//! terminal envelope — `Finished` or `Failed` — echoing the request's
//! id; an unknown tag draws the invalid-service-type failure. The
//! handlers for the inventory-changing services additionally publish a
//! `(flight, status)` event on the monitor bus. A monitor request
//! yields the terminal envelope and, on success, an open session for
//! the caller to run.
//!
//! Sending the envelopes, timing the monitor window and the per-request
//! task structure stay outside; the peer address string handed in at
//! construction is the sole client identity, exactly as the transport
//! reports it.

use vstd::prelude::*;

use crate::body::{
    failed_body_val, f_string, f_u32, key_amount_in_kg, key_destination, key_flight_id,
    key_monitor_interval, key_num_seat, key_source, message_body_val, obj1_from_val,
    obj2_from_val, service1_response_val, service2_response_val, Service1RequestBody,
    Service1ResponseBody, Service2RequestBody, Service2ResponseBody, Service3RequestBody,
    Service3ResponseBody, Service4RequestBody, Service5RequestBody, Service6RequestBody,
    Service6ResponseBody, ServiceFailedResponse,
};
use crate::decode::spec_parse;
use crate::encode::{enc_val, enc_wf};
use crate::envelope::{IdCounter, RPCRequest, RPCResponse, ResponseStatus};
use crate::json::{JsonNode, JsonVal};
use crate::monitor::{MonitorBus, MonitorSession};
use crate::store::{
    flight_idx, matching_ids, BuyLuggageStatus, CancellationStatus, DatabaseService,
    ReservationStatus,
};

verus! {

broadcast use vstd::std_specs::vec::group_vec_axioms, vstd::seq::group_seq_axioms;

/// The server-side error kinds, each rendered into the failure body
/// the client reads.
#[derive(Clone, Copy, PartialEq, Eq, Structural, Debug)]
pub enum APIError {
    MalformedRequest,
    DatabaseError,
    RecordNotFound,
    ParametersOutOfBounds,
    ConnectionError,
}

impl APIError {
    /// The human-readable message of this error.
    pub fn message(&self) -> (r: String)
        ensures
            *self == APIError::MalformedRequest ==> r@ == "Request deserialization error"@,
            *self == APIError::DatabaseError ==> r@ == "Internal database service error"@,
            *self == APIError::RecordNotFound ==> r@ == "Requested resource does not exists"@,
            *self == APIError::ParametersOutOfBounds ==> r@ == "Request parameters out of bounds"@,
            *self == APIError::ConnectionError ==> r@ == "Socket connection is down"@,
    {
        match self {
            APIError::MalformedRequest => String::from_str("Request deserialization error"),
            APIError::DatabaseError => String::from_str("Internal database service error"),
            APIError::RecordNotFound => String::from_str("Requested resource does not exists"),
            APIError::ParametersOutOfBounds => String::from_str(
                "Request parameters out of bounds",
            ),
            APIError::ConnectionError => String::from_str("Socket connection is down"),
        }
    }
}

/// A message body is always emittable.
pub proof fn lemma_message_body_wf(s: Seq<char>)
    ensures
        enc_wf(message_body_val(s)),
        enc_wf(failed_body_val(s)),
{
    let m = seq![(crate::body::key_message(), crate::body::string_val(s))];
    assert(m.drop_last() =~= Seq::<(Seq<u8>, JsonVal)>::empty());
    assert(crate::encode::obj_wf(m)) by {
        reveal_with_fuel(crate::encode::obj_wf, 3);
        reveal_with_fuel(crate::encode::enc_wf, 2);
    }
    let e = seq![(crate::body::key_error(), crate::body::string_val(s))];
    assert(e.drop_last() =~= Seq::<(Seq<u8>, JsonVal)>::empty());
    assert(crate::encode::obj_wf(e)) by {
        reveal_with_fuel(crate::encode::obj_wf, 3);
        reveal_with_fuel(crate::encode::enc_wf, 2);
    }
}

/// A query-success body is always emittable.
pub proof fn lemma_ids_body_wf(ids: Seq<u32>)
    ensures
        enc_wf(service1_response_val(ids)),
{
    lemma_u32_arr_wf(ids);
    let m = seq![(crate::body::key_flight_ids(), crate::body::u32_arr_val(ids))];
    assert(m.drop_last() =~= Seq::<(Seq<u8>, JsonVal)>::empty());
    assert(crate::encode::obj_wf(m)) by {
        reveal_with_fuel(crate::encode::obj_wf, 3);
        reveal_with_fuel(crate::encode::enc_wf, 2);
    }
}

proof fn lemma_u32_arr_wf(ids: Seq<u32>)
    ensures
        enc_wf(crate::body::u32_arr_val(ids)),
    decreases ids.len(),
{
    let items = Seq::new(ids.len(), |i: int| JsonVal::UInt(ids[i] as u64));
    if ids.len() == 0 {
        assert(crate::encode::arr_wf(items));
    } else {
        lemma_u32_arr_wf(ids.drop_last());
        let prev = Seq::new(
            ids.drop_last().len(),
            |i: int| JsonVal::UInt(ids.drop_last()[i] as u64),
        );
        assert(items.drop_last() =~= prev);
        assert(items.last() == JsonVal::UInt(ids.last() as u64));
        assert(crate::encode::arr_wf(items)) by {
            reveal_with_fuel(crate::encode::arr_wf, 2);
            reveal_with_fuel(crate::encode::enc_wf, 2);
        }
    }
}

/// A flight-details body is always emittable.
pub proof fn lemma_details_body_wf(departure_time: i32, airfare_cents: u32, seat_avail: u32)
    ensures
        enc_wf(service2_response_val(departure_time, airfare_cents, seat_avail)),
{
    let d = crate::json::DecNumber { neg: false, mantissa: airfare_cents as u64, exp10: -2i32 };
    assert(crate::encode::pow10(0) == 1);
    assert(airfare_cents as u64 * 1 == airfare_cents as u64) by (nonlinear_arith);
    assert(crate::encode::dec_encodable(d));
    let entries = seq![
        (crate::body::key_departure_time(), crate::body::i32_val(departure_time)),
        (crate::body::key_airfare(), crate::body::cents_val(airfare_cents)),
        (crate::body::key_seat_avail(), JsonVal::UInt(seat_avail as u64)),
    ];
    assert(entries.drop_last() =~= seq![
        (crate::body::key_departure_time(), crate::body::i32_val(departure_time)),
        (crate::body::key_airfare(), crate::body::cents_val(airfare_cents)),
    ]);
    assert(entries.drop_last().drop_last() =~= seq![
        (crate::body::key_departure_time(), crate::body::i32_val(departure_time)),
    ]);
    assert(entries.drop_last().drop_last().drop_last() =~= Seq::<(Seq<u8>, JsonVal)>::empty());
    assert(crate::encode::obj_wf(entries)) by {
        reveal_with_fuel(crate::encode::obj_wf, 5);
        reveal_with_fuel(crate::encode::enc_wf, 2);
    }
}

/// Builds a `Failed` envelope carrying this error's message.
fn failed_response(request_id: u32, err: APIError, response_ids: &mut IdCounter) -> (r:
    RPCResponse)
    ensures
        r@.request_id == request_id,
        r@.status == ResponseStatus::Failed,
        r@.body == enc_val(failed_body_val(err.message_view())),
{
    let mut resp: RPCResponse = RPCResponse::failed(request_id, response_ids);
    let body = ServiceFailedResponse { error: err.message() };
    let node: JsonNode = body.to_json();
    proof {
        lemma_message_body_wf(err.message_view());
    }
    resp.encode_body(&node);
    resp
}

impl APIError {
    /// The message as a character sequence, for contracts.
    pub open spec fn message_view(&self) -> Seq<char> {
        match self {
            APIError::MalformedRequest => "Request deserialization error"@,
            APIError::DatabaseError => "Internal database service error"@,
            APIError::RecordNotFound => "Requested resource does not exists"@,
            APIError::ParametersOutOfBounds => "Request parameters out of bounds"@,
            APIError::ConnectionError => "Socket connection is down"@,
        }
    }
}

/// Builds a `Finished` envelope carrying a message body.
fn finished_message_response(request_id: u32, message: String, response_ids: &mut IdCounter) -> (r:
    RPCResponse)
    ensures
        r@.request_id == request_id,
        r@.status == ResponseStatus::Finished,
        r@.body == enc_val(message_body_val(message@)),
{
    let mut resp: RPCResponse = RPCResponse::finished(request_id, response_ids);
    proof {
        lemma_message_body_wf(message@);
    }
    let body = Service3ResponseBody { message };
    let node: JsonNode = body.to_json();
    resp.encode_body(&node);
    resp
}

/// What dispatching one request produced: a terminal envelope, plus an
/// open monitor session when a monitor request was accepted.
pub enum Dispatched {
    Reply(RPCResponse),
    Monitor(RPCResponse, MonitorSession),
}

/// The terminal envelope of a dispatch outcome.
pub open spec fn dispatched_resp(r: Dispatched) -> crate::envelope::RespV {
    match r {
        Dispatched::Reply(resp) => resp@,
        Dispatched::Monitor(resp, _) => resp@,
    }
}

/// The server-side state one request is handled against: the store,
/// the monitor bus, the response-id counter, and the peer's address —
/// the sole client identity.
pub struct ServiceHandler {
    pub db_service: DatabaseService,
    pub bus: MonitorBus,
    pub response_ids: IdCounter,
    pub client_addr: String,
}

impl ServiceHandler {
    pub fn new(db_service: DatabaseService, client_addr: String) -> (r: ServiceHandler)
        ensures
            r.db_service@ == db_service@,
            r.db_service.wf() == db_service.wf(),
            r.client_addr@ == client_addr@,
            r.bus@ == Seq::<(u64, Seq<(u32, ReservationStatus)>)>::empty(),
            r.bus.next_key == 0,
            r.bus.wf(),
    {
        ServiceHandler {
            db_service,
            bus: MonitorBus::new(),
            response_ids: IdCounter::new(),
            client_addr,
        }
    }

    /// The invalid-service-type failure for a request whose tag no
    /// handler owns.
    pub fn invalid_service_type(&mut self, req: &RPCRequest) -> (r: RPCResponse)
        ensures
            invalid_service_post(*old(self), *final(self), req@, r@),
    {
        crate::envelope::failed_invalid_service_type(req, &mut self.response_ids)
    }
}

/// The bytes of the invalid-service-type message.
pub open spec fn invalid_service_type_msg() -> Seq<u8> {
    vstd::utf8::encode_utf8("Invalid service type"@)
}

/// The query body a request carries, if any.
pub open spec fn parsed_service1(body: Seq<u8>) -> Option<(Seq<char>, Seq<char>)> {
    match spec_parse(body) {
        None => None,
        Some(doc) => obj2_from_val(doc, key_source(), f_string(), key_destination(), f_string()),
    }
}

/// The one-flight body a request carries, if any.
pub open spec fn parsed_flight_id(body: Seq<u8>) -> Option<u32> {
    match spec_parse(body) {
        None => None,
        Some(doc) => obj1_from_val(doc, key_flight_id(), f_u32()),
    }
}

/// The reservation body a request carries, if any.
pub open spec fn parsed_service3(body: Seq<u8>) -> Option<(u32, u32)> {
    match spec_parse(body) {
        None => None,
        Some(doc) => obj2_from_val(doc, key_flight_id(), f_u32(), key_num_seat(), f_u32()),
    }
}

/// The monitor body a request carries, if any.
pub open spec fn parsed_service4(body: Seq<u8>) -> Option<(u32, u32)> {
    match spec_parse(body) {
        None => None,
        Some(doc) => obj2_from_val(doc, key_flight_id(), f_u32(), key_monitor_interval(), f_u32()),
    }
}

/// The luggage body a request carries, if any.
pub open spec fn parsed_service6(body: Seq<u8>) -> Option<(u32, u32)> {
    match spec_parse(body) {
        None => None,
        Some(doc) => obj2_from_val(doc, key_flight_id(), f_u32(), key_amount_in_kg(), f_u32()),
    }
}

/// The failure body rendering of an error.
pub open spec fn failed_body_of(err: APIError) -> Seq<u8> {
    enc_val(failed_body_val(err.message_view()))
}

// what handling one request under each tag does, named so that the
// handlers and the dispatcher state one and the same outcome

/// The query outcome: the store untouched, and either the matching
/// flight ids or the malformed-request failure.
pub open spec fn service1_post(
    pre: ServiceHandler,
    post: ServiceHandler,
    req: crate::envelope::ReqV,
    resp: crate::envelope::RespV,
) -> bool {
    &&& post.db_service.wf()
    &&& post.db_service@ == pre.db_service@
    &&& post.bus == pre.bus
    &&& post.client_addr@ == pre.client_addr@
    &&& resp.request_id == req.id
    &&& match parsed_service1(req.body) {
        None => resp.status == ResponseStatus::Failed && resp.body == failed_body_of(
            APIError::MalformedRequest,
        ),
        Some(q) => resp.status == ResponseStatus::Finished && resp.body == enc_val(
            service1_response_val(matching_ids(pre.db_service@.flights, q.0, q.1)),
        ),
    }
}

/// The details outcome: the store untouched, and the flight's record,
/// the not-found failure, or the malformed-request failure.
pub open spec fn service2_post(
    pre: ServiceHandler,
    post: ServiceHandler,
    req: crate::envelope::ReqV,
    resp: crate::envelope::RespV,
) -> bool {
    &&& post.db_service.wf()
    &&& post.db_service@ == pre.db_service@
    &&& post.bus == pre.bus
    &&& post.client_addr@ == pre.client_addr@
    &&& resp.request_id == req.id
    &&& match parsed_flight_id(req.body) {
        None => resp.status == ResponseStatus::Failed && resp.body == failed_body_of(
            APIError::MalformedRequest,
        ),
        Some(fid) => {
            let fi = flight_idx(pre.db_service@.flights, fid);
            if fi == -1 {
                resp.status == ResponseStatus::Failed && resp.body == failed_body_of(
                    APIError::RecordNotFound,
                )
            } else {
                let f = pre.db_service@.flights[fi];
                resp.status == ResponseStatus::Finished && resp.body == enc_val(
                    service2_response_val(f.departure_time, f.airfare_cents, f.seat_available),
                )
            }
        },
    }
}

/// The reservation outcome: the store moves as booking specifies, the
/// change is published for monitors on success, and the reply carries
/// the booking's message or the matching failure.
pub open spec fn service3_post(
    pre: ServiceHandler,
    post: ServiceHandler,
    req: crate::envelope::ReqV,
    resp: crate::envelope::RespV,
) -> bool {
    &&& post.db_service.wf()
    &&& post.bus.wf()
    &&& post.client_addr@ == pre.client_addr@
    &&& resp.request_id == req.id
    &&& match parsed_service3(req.body) {
        None => resp.status == ResponseStatus::Failed && resp.body == failed_body_of(
            APIError::MalformedRequest,
        ) && post.db_service@ == pre.db_service@ && post.bus == pre.bus,
        Some(q) => {
            let st = crate::store::reserve_status(pre.db_service@, q.0, pre.client_addr@, q.1);
            post.db_service@ == crate::store::reserve_next(
                pre.db_service@,
                pre.db_service.next_reservation_id,
                q.0,
                pre.client_addr@,
                q.1,
            ) && match st {
                Err(_) => resp.status == ResponseStatus::Failed && resp.body == failed_body_of(
                    APIError::DatabaseError,
                ) && post.bus == pre.bus,
                Ok(status) => if status == ReservationStatus::Created || status
                    == ReservationStatus::Updated {
                    resp.status == ResponseStatus::Finished && resp.body == enc_val(
                        message_body_val(status_message_view(status)),
                    ) && post.bus@ == crate::monitor::bus_publish(pre.bus@, q.0, status)
                        && post.bus.next_key == pre.bus.next_key
                } else {
                    resp.status == ResponseStatus::Failed && post.bus == pre.bus && resp.body
                        == failed_body_of(
                        if status == ReservationStatus::InvalidFlightID {
                            APIError::RecordNotFound
                        } else {
                            APIError::ParametersOutOfBounds
                        },
                    )
                },
            }
        },
    }
}

/// The monitor outcome: the store untouched, and the acknowledgement
/// with an open session, the not-found failure, or the
/// malformed-request failure.
pub open spec fn service4_post(
    pre: ServiceHandler,
    post: ServiceHandler,
    req: crate::envelope::ReqV,
    r: Dispatched,
) -> bool {
    &&& post.db_service.wf()
    &&& post.db_service@ == pre.db_service@
    &&& post.bus == pre.bus
    &&& post.client_addr@ == pre.client_addr@
    &&& dispatched_resp(r).request_id == req.id
    &&& match parsed_service4(req.body) {
        None => r is Reply && dispatched_resp(r).status == ResponseStatus::Failed
            && dispatched_resp(r).body == failed_body_of(APIError::MalformedRequest),
        Some(q) => if flight_idx(pre.db_service@.flights, q.0) == -1 {
            r is Reply && dispatched_resp(r).status == ResponseStatus::Failed && dispatched_resp(
                r,
            ).body == failed_body_of(APIError::RecordNotFound)
        } else {
            r is Monitor && dispatched_resp(r).status == ResponseStatus::Finished
                && dispatched_resp(r).body == enc_val(
                message_body_val("Monitor service successfully established"@),
            ) && r->Monitor_1.flight_id == q.0 && r->Monitor_1.request_id == req.id
        },
    }
}

/// The cancellation outcome: the store moves as cancellation
/// specifies, the change is published on success, and the reply
/// carries the message or the matching failure.
pub open spec fn service5_post(
    pre: ServiceHandler,
    post: ServiceHandler,
    req: crate::envelope::ReqV,
    resp: crate::envelope::RespV,
) -> bool {
    &&& post.db_service.wf()
    &&& post.bus.wf()
    &&& post.client_addr@ == pre.client_addr@
    &&& resp.request_id == req.id
    &&& match parsed_flight_id(req.body) {
        None => resp.status == ResponseStatus::Failed && resp.body == failed_body_of(
            APIError::MalformedRequest,
        ) && post.db_service@ == pre.db_service@ && post.bus == pre.bus,
        Some(fid) => {
            let st = crate::store::cancel_status(pre.db_service@, fid, pre.client_addr@);
            post.db_service@ == crate::store::cancel_next(pre.db_service@, fid, pre.client_addr@)
                && match st {
                Err(_) => resp.status == ResponseStatus::Failed && resp.body == failed_body_of(
                    APIError::DatabaseError,
                ) && post.bus == pre.bus,
                Ok(status) => if status == CancellationStatus::Success {
                    resp.status == ResponseStatus::Finished && resp.body == enc_val(
                        message_body_val("Reservation successfully cancelled"@),
                    ) && post.bus@ == crate::monitor::bus_publish(
                        pre.bus@,
                        fid,
                        ReservationStatus::Updated,
                    ) && post.bus.next_key == pre.bus.next_key
                } else {
                    resp.status == ResponseStatus::Failed && resp.body == failed_body_of(
                        APIError::RecordNotFound,
                    ) && post.bus == pre.bus
                },
            }
        },
    }
}

/// The luggage outcome: the store moves as the purchase specifies, no
/// monitor event, and the reply carries the message or the matching
/// failure.
pub open spec fn service6_post(
    pre: ServiceHandler,
    post: ServiceHandler,
    req: crate::envelope::ReqV,
    resp: crate::envelope::RespV,
) -> bool {
    &&& post.db_service.wf()
    &&& post.client_addr@ == pre.client_addr@
    &&& post.bus == pre.bus
    &&& resp.request_id == req.id
    &&& match parsed_service6(req.body) {
        None => resp.status == ResponseStatus::Failed && resp.body == failed_body_of(
            APIError::MalformedRequest,
        ) && post.db_service@ == pre.db_service@,
        Some(q) => {
            let st = crate::store::luggage_status(pre.db_service@, q.0, pre.client_addr@, q.1);
            post.db_service@ == crate::store::luggage_next(
                pre.db_service@,
                q.0,
                pre.client_addr@,
                q.1,
            ) && match st {
                Err(_) => resp.status == ResponseStatus::Failed && resp.body == failed_body_of(
                    APIError::DatabaseError,
                ),
                Ok(status) => if status == BuyLuggageStatus::Success {
                    resp.status == ResponseStatus::Finished && resp.body == enc_val(
                        message_body_val("Luggage successfully bought"@),
                    )
                } else {
                    resp.status == ResponseStatus::Failed && resp.body == failed_body_of(
                        APIError::RecordNotFound,
                    )
                },
            }
        },
    }
}

/// The unknown-tag outcome: the store and bus untouched, and the fixed
/// invalid-service-type failure.
pub open spec fn invalid_service_post(
    pre: ServiceHandler,
    post: ServiceHandler,
    req: crate::envelope::ReqV,
    resp: crate::envelope::RespV,
) -> bool {
    &&& post.db_service@ == pre.db_service@
    &&& post.db_service.wf() == pre.db_service.wf()
    &&& post.bus == pre.bus
    &&& post.client_addr@ == pre.client_addr@
    &&& resp.request_id == req.id
    &&& resp.status == ResponseStatus::Failed
    &&& resp.body == enc_val(JsonVal::Str(invalid_service_type_msg()))
}

impl ServiceHandler {
    /// Query: the flights between the requested airports.
    pub fn service_1(&mut self, req: &RPCRequest) -> (r: RPCResponse)
        requires
            old(self).db_service.wf(),
        ensures
            service1_post(*old(self), *final(self), req@, r@),
    {
        let node: JsonNode = match req.decode_body() {
            Ok(n) => n,
            Err(_) => {
                return failed_response(req.id, APIError::MalformedRequest, &mut self.response_ids);
            }
        };
        let body: Service1RequestBody = match Service1RequestBody::from_json(&node) {
            Ok(b) => b,
            Err(_) => {
                return failed_response(req.id, APIError::MalformedRequest, &mut self.response_ids);
            }
        };
        let ids: Vec<u32> = match self.db_service.get_flight_ids(body.source, body.destination) {
            Ok(v) => v,
            Err(_) => {
                proof {
                    assert(false);
                }
                Vec::new()
            }
        };
        let mut resp: RPCResponse = RPCResponse::finished(req.id, &mut self.response_ids);
        proof {
            lemma_ids_body_wf(ids@);
        }
        let rbody = Service1ResponseBody { flight_ids: ids };
        let n2: JsonNode = rbody.to_json();
        resp.encode_body(&n2);
        resp
    }

    /// Details: departure time, fare and free seats of one flight.
    pub fn service_2(&mut self, req: &RPCRequest) -> (r: RPCResponse)
        requires
            old(self).db_service.wf(),
        ensures
            service2_post(*old(self), *final(self), req@, r@),
    {
        let node: JsonNode = match req.decode_body() {
            Ok(n) => n,
            Err(_) => {
                return failed_response(req.id, APIError::MalformedRequest, &mut self.response_ids);
            }
        };
        let body: Service2RequestBody = match Service2RequestBody::from_json(&node) {
            Ok(b) => b,
            Err(_) => {
                return failed_response(req.id, APIError::MalformedRequest, &mut self.response_ids);
            }
        };
        let info: (i32, u32, u32) = match self.db_service.get_flight_info(body.flight_id) {
            Ok(Some(t)) => t,
            Ok(None) => {
                return failed_response(req.id, APIError::RecordNotFound, &mut self.response_ids);
            }
            Err(_) => {
                proof {
                    assert(false);
                }
                (0i32, 0u32, 0u32)
            }
        };
        let mut resp: RPCResponse = RPCResponse::finished(req.id, &mut self.response_ids);
        proof {
            lemma_details_body_wf(info.0, info.1, info.2);
        }
        let rbody = Service2ResponseBody {
            departure_time: info.0,
            airfare_cents: info.1,
            seat_avail: info.2,
        };
        let n2: JsonNode = rbody.to_json();
        resp.encode_body(&n2);
        resp
    }

    /// Reservation: books seats, publishes the change for monitors.
    pub fn service_3(&mut self, req: &RPCRequest) -> (r: RPCResponse)
        requires
            old(self).db_service.wf(),
            old(self).bus.wf(),
        ensures
            service3_post(*old(self), *final(self), req@, r@),
    {
        let node: JsonNode = match req.decode_body() {
            Ok(n) => n,
            Err(_) => {
                return failed_response(req.id, APIError::MalformedRequest, &mut self.response_ids);
            }
        };
        let body: Service3RequestBody = match Service3RequestBody::from_json(&node) {
            Ok(b) => b,
            Err(_) => {
                return failed_response(req.id, APIError::MalformedRequest, &mut self.response_ids);
            }
        };
        let client: String = self.client_addr.clone();
        match self.db_service.make_reservation(body.flight_id, client, body.num_seat) {
            Err(_) => failed_response(req.id, APIError::DatabaseError, &mut self.response_ids),
            Ok(status) => match status {
                ReservationStatus::Created | ReservationStatus::Updated => {
                    let resp: RPCResponse = finished_message_response(
                        req.id,
                        status.message(),
                        &mut self.response_ids,
                    );
                    self.bus.publish(body.flight_id, status);
                    resp
                }
                ReservationStatus::InvalidFlightID => failed_response(
                    req.id,
                    APIError::RecordNotFound,
                    &mut self.response_ids,
                ),
                _ => failed_response(
                    req.id,
                    APIError::ParametersOutOfBounds,
                    &mut self.response_ids,
                ),
            },
        }
    }

    /// Cancellation: returns the seats, publishes the change.
    pub fn service_5(&mut self, req: &RPCRequest) -> (r: RPCResponse)
        requires
            old(self).db_service.wf(),
            old(self).bus.wf(),
        ensures
            service5_post(*old(self), *final(self), req@, r@),
    {
        let node: JsonNode = match req.decode_body() {
            Ok(n) => n,
            Err(_) => {
                return failed_response(req.id, APIError::MalformedRequest, &mut self.response_ids);
            }
        };
        let body: Service5RequestBody = match Service5RequestBody::from_json(&node) {
            Ok(b) => b,
            Err(_) => {
                return failed_response(req.id, APIError::MalformedRequest, &mut self.response_ids);
            }
        };
        let client: String = self.client_addr.clone();
        match self.db_service.cancel_reservation(body.flight_id, client) {
            Err(_) => failed_response(req.id, APIError::DatabaseError, &mut self.response_ids),
            Ok(CancellationStatus::Success) => {
                let status = CancellationStatus::Success;
                let resp: RPCResponse = finished_message_response(
                    req.id,
                    status.message(),
                    &mut self.response_ids,
                );
                self.bus.publish(body.flight_id, ReservationStatus::Updated);
                resp
            }
            Ok(CancellationStatus::ReservationNotExisted) => failed_response(
                req.id,
                APIError::RecordNotFound,
                &mut self.response_ids,
            ),
        }
    }

    /// Luggage: adds weight to the client's reservation. No monitor
    /// event: luggage does not change the seat inventory.
    pub fn service_6(&mut self, req: &RPCRequest) -> (r: RPCResponse)
        requires
            old(self).db_service.wf(),
        ensures
            service6_post(*old(self), *final(self), req@, r@),
    {
        let node: JsonNode = match req.decode_body() {
            Ok(n) => n,
            Err(_) => {
                return failed_response(req.id, APIError::MalformedRequest, &mut self.response_ids);
            }
        };
        let body: Service6RequestBody = match Service6RequestBody::from_json(&node) {
            Ok(b) => b,
            Err(_) => {
                return failed_response(req.id, APIError::MalformedRequest, &mut self.response_ids);
            }
        };
        let client: String = self.client_addr.clone();
        match self.db_service.buy_luggage(body.flight_id, client, body.amount_in_kg) {
            Err(_) => failed_response(req.id, APIError::DatabaseError, &mut self.response_ids),
            Ok(BuyLuggageStatus::Success) => {
                let status = BuyLuggageStatus::Success;
                finished_message_response(req.id, status.message(), &mut self.response_ids)
            }
            Ok(BuyLuggageStatus::ReservationNotExisted) => failed_response(
                req.id,
                APIError::RecordNotFound,
                &mut self.response_ids,
            ),
        }
    }

    /// Monitor: validates the flight and opens a session. The caller
    /// runs the session against the bus until the window elapses.
    pub fn service_4(&mut self, req: &RPCRequest) -> (r: Dispatched)
        requires
            old(self).db_service.wf(),
        ensures
            service4_post(*old(self), *final(self), req@, r),
    {
        let node: JsonNode = match req.decode_body() {
            Ok(n) => n,
            Err(_) => {
                return Dispatched::Reply(
                    failed_response(req.id, APIError::MalformedRequest, &mut self.response_ids),
                );
            }
        };
        let body: Service4RequestBody = match Service4RequestBody::from_json(&node) {
            Ok(b) => b,
            Err(_) => {
                return Dispatched::Reply(
                    failed_response(req.id, APIError::MalformedRequest, &mut self.response_ids),
                );
            }
        };
        let exists: bool = match self.db_service.is_flight_exists(body.flight_id) {
            Ok(b) => b,
            Err(_) => {
                proof {
                    assert(false);
                }
                false
            }
        };
        if !exists {
            return Dispatched::Reply(
                failed_response(req.id, APIError::RecordNotFound, &mut self.response_ids),
            );
        }
        let ack: RPCResponse = finished_message_response(
            req.id,
            String::from_str("Monitor service successfully established"),
            &mut self.response_ids,
        );
        Dispatched::Monitor(
            ack,
            MonitorSession { flight_id: body.flight_id, request_id: req.id },
        )
    }

    /// Routes one request by its service tag and yields exactly one
    /// terminal envelope echoing the request's id — `Finished` or
    /// `Failed`, never both, never neither: under each tag, exactly
    /// the routed handler's own outcome. Handling never removes a
    /// flight: every flight id keeps its row.
    pub fn dispatch(&mut self, req: &RPCRequest) -> (r: Dispatched)
        requires
            old(self).db_service.wf(),
            old(self).bus.wf(),
        ensures
            final(self).db_service.wf(),
            final(self).bus.wf(),
            dispatched_resp(r).request_id == req@.id,
            dispatched_resp(r).status == ResponseStatus::Finished || dispatched_resp(r).status
                == ResponseStatus::Failed,
            final(self).db_service@.flights.len() == old(self).db_service@.flights.len(),
            forall|i: int|
                0 <= i < old(self).db_service@.flights.len() ==> #[trigger] final(self).db_service@.flights[i].id == old(self).db_service@.flights[i].id,
            r is Monitor ==> flight_idx(final(self).db_service@.flights, r->Monitor_1.flight_id)
                >= 0 && r->Monitor_1.request_id == req@.id,
            req@.service_type == 1 ==> r is Reply && service1_post(
                *old(self),
                *final(self),
                req@,
                r->Reply_0@,
            ),
            req@.service_type == 2 ==> r is Reply && service2_post(
                *old(self),
                *final(self),
                req@,
                r->Reply_0@,
            ),
            req@.service_type == 3 ==> r is Reply && service3_post(
                *old(self),
                *final(self),
                req@,
                r->Reply_0@,
            ),
            req@.service_type == 4 ==> service4_post(*old(self), *final(self), req@, r),
            req@.service_type == 5 ==> r is Reply && service5_post(
                *old(self),
                *final(self),
                req@,
                r->Reply_0@,
            ),
            req@.service_type == 6 ==> r is Reply && service6_post(
                *old(self),
                *final(self),
                req@,
                r->Reply_0@,
            ),
            !(1 <= req@.service_type <= 6) ==> r is Reply && invalid_service_post(
                *old(self),
                *final(self),
                req@,
                r->Reply_0@,
            ),
    {
        let r: Dispatched = if req.service_type == 1 {
            Dispatched::Reply(self.service_1(req))
        } else if req.service_type == 2 {
            Dispatched::Reply(self.service_2(req))
        } else if req.service_type == 3 {
            Dispatched::Reply(self.service_3(req))
        } else if req.service_type == 4 {
            self.service_4(req)
        } else if req.service_type == 5 {
            Dispatched::Reply(self.service_5(req))
        } else if req.service_type == 6 {
            Dispatched::Reply(self.service_6(req))
        } else {
            Dispatched::Reply(self.invalid_service_type(req))
        };
        proof {
            let fpre = old(self).db_service@.flights;
            if req@.service_type == 3 {
                match parsed_service3(req@.body) {
                    Some(q) => {
                        crate::store::lemma_flight_idx(fpre, q.0);
                    }
                    None => {}
                }
            } else if req@.service_type == 5 {
                match parsed_flight_id(req@.body) {
                    Some(fid) => {
                        crate::store::lemma_flight_idx(fpre, fid);
                    }
                    None => {}
                }
            }
        }
        r
    }
}

/// The message text of a reservation outcome, for contracts.
pub open spec fn status_message_view(st: ReservationStatus) -> Seq<char> {
    match st {
        ReservationStatus::InvalidFlightID => "Flight not found"@,
        ReservationStatus::InsufficientCapacity => "Not enough seat"@,
        ReservationStatus::ZeroSeatReserved => "Seat reserved should be greater"@,
        ReservationStatus::Created => "Reservation created"@,
        ReservationStatus::Updated => "Reservation updated"@,
    }
}


} // verus!
