//! The RPC envelope: request and response framing.
//!
//! A request carries `id` (the consumer's correlation key, drawn from
//! a session-monotonic counter), `service_type` (a tag in 1..=6 on the
//! wire; anything else draws the invalid-service-type reply) and an
//! opaque byte body. A response carries its own informational `id`,
//! the echoed `request_id`, a [`ResponseStatus`] and a body.
//!
//! On the wire an envelope is one JSON object; the opaque body rides
//! as an array of byte values. Field order on emission is fixed;
//! decoding accepts the fields in any order, ignores unknown keys,
//! lets a repeated key overwrite the earlier value, and demands every
//! field in the end.

use vstd::prelude::*;

use vstd::string::StrSliceExecFns;

use crate::decode::{parse_json, spec_parse, JsonError};
use crate::encode::{arr_wf, enc_val, enc_wf, to_json_bytes};
use crate::json::{entry_nodes_view, nodes_view, JsonNode, JsonVal};

verus! {

broadcast use vstd::std_specs::vec::group_vec_axioms, vstd::seq::group_seq_axioms;

/// Outcome tag of a response envelope. `Finished` and `Failed` are the
/// terminal outcomes; `Updated` carries a monitor notification.
#[derive(Clone, Copy, PartialEq, Eq, Structural, Debug)]
pub enum ResponseStatus {
    Finished,
    Updated,
    Failed,
}

/// The value an id counter holds after handing one id out: the
/// successor, wrapping at the end of the 32-bit range.
pub open spec fn next_id_after(id: u32) -> u32 {
    if id == u32::MAX {
        0
    } else {
        (id + 1) as u32
    }
}

/// A per-session monotonic identifier source. Identifiers restart at
/// zero with every session: they must not be persisted across runs.
pub struct IdCounter {
    next: u32,
}

impl IdCounter {
    /// Which identifier the counter will hand out next.
    pub closed spec fn next_id(&self) -> u32 {
        self.next
    }

    pub fn new() -> (r: IdCounter)
        ensures
            r.next_id() == 0,
    {
        IdCounter { next: 0 }
    }

    /// Hands out the next identifier and advances, wrapping at the
    /// end of the 32-bit range.
    pub fn fresh_id(&mut self) -> (r: u32)
        ensures
            r == old(self).next_id(),
            final(self).next_id() == next_id_after(old(self).next_id()),
    {
        let id: u32 = self.next;
        self.next = if self.next == u32::MAX {
            0
        } else {
            self.next + 1
        };
        id
    }
}

/// Draws a fresh request identifier. The request counter belongs to
/// the consumer side and is independent of the response counter.
pub fn get_request_id(counter: &mut IdCounter) -> (r: u32)
    ensures
        r == old(counter).next_id(),
        final(counter).next_id() == next_id_after(old(counter).next_id()),
{
    counter.fresh_id()
}

/// Draws a fresh response identifier from the server's own counter.
pub fn get_response_id(counter: &mut IdCounter) -> (r: u32)
    ensures
        r == old(counter).next_id(),
        final(counter).next_id() == next_id_after(old(counter).next_id()),
{
    counter.fresh_id()
}

/// A request envelope.
#[derive(Debug)]
pub struct RPCRequest {
    pub id: u32,
    pub service_type: u8,
    pub body: Vec<u8>,
}

/// Mathematical value of a request envelope.
pub struct ReqV {
    pub id: u32,
    pub service_type: u8,
    pub body: Seq<u8>,
}

impl View for RPCRequest {
    type V = ReqV;

    open spec fn view(&self) -> ReqV {
        ReqV { id: self.id, service_type: self.service_type, body: self.body@ }
    }
}

/// A response envelope. The response's own `id` is informational;
/// `request_id` is the correlation key.
#[derive(Debug)]
pub struct RPCResponse {
    pub id: u32,
    pub request_id: u32,
    pub status: ResponseStatus,
    pub body: Vec<u8>,
}

/// Mathematical value of a response envelope.
pub struct RespV {
    pub id: u32,
    pub request_id: u32,
    pub status: ResponseStatus,
    pub body: Seq<u8>,
}

impl View for RPCResponse {
    type V = RespV;

    open spec fn view(&self) -> RespV {
        RespV {
            id: self.id,
            request_id: self.request_id,
            status: self.status,
            body: self.body@,
        }
    }
}

// the envelopes' field names, as byte strings

pub open spec fn key_id() -> Seq<u8> {
    seq![0x69u8, 0x64]
}

pub open spec fn key_service_type() -> Seq<u8> {
    seq![0x73u8, 0x65, 0x72, 0x76, 0x69, 0x63, 0x65, 0x5f, 0x74, 0x79, 0x70, 0x65]
}

pub open spec fn key_body() -> Seq<u8> {
    seq![0x62u8, 0x6f, 0x64, 0x79]
}

pub open spec fn key_request_id() -> Seq<u8> {
    seq![0x72u8, 0x65, 0x71, 0x75, 0x65, 0x73, 0x74, 0x5f, 0x69, 0x64]
}

pub open spec fn key_status() -> Seq<u8> {
    seq![0x73u8, 0x74, 0x61, 0x74, 0x75, 0x73]
}

// the status tags, as byte strings

pub open spec fn tag_finished() -> Seq<u8> {
    seq![0x46u8, 0x69, 0x6e, 0x69, 0x73, 0x68, 0x65, 0x64]
}

pub open spec fn tag_updated() -> Seq<u8> {
    seq![0x55u8, 0x70, 0x64, 0x61, 0x74, 0x65, 0x64]
}

pub open spec fn tag_failed() -> Seq<u8> {
    seq![0x46u8, 0x61, 0x69, 0x6c, 0x65, 0x64]
}

/// An opaque byte body as it rides inside the envelope document: an
/// array of byte values.
pub open spec fn bytes_arr_val(b: Seq<u8>) -> JsonVal {
    JsonVal::Arr(Seq::new(b.len(), |i: int| JsonVal::UInt(b[i] as u64)))
}

/// The document a request envelope serializes to.
pub open spec fn req_val(r: ReqV) -> JsonVal {
    JsonVal::Obj(
        seq![
            (key_id(), JsonVal::UInt(r.id as u64)),
            (key_service_type(), JsonVal::UInt(r.service_type as u64)),
            (key_body(), bytes_arr_val(r.body)),
        ],
    )
}

/// The document tag of a status.
pub open spec fn status_val(st: ResponseStatus) -> JsonVal {
    match st {
        ResponseStatus::Finished => JsonVal::Str(tag_finished()),
        ResponseStatus::Updated => JsonVal::Str(tag_updated()),
        ResponseStatus::Failed => JsonVal::Str(tag_failed()),
    }
}

/// The document a response envelope serializes to.
pub open spec fn resp_val(r: RespV) -> JsonVal {
    JsonVal::Obj(
        seq![
            (key_id(), JsonVal::UInt(r.id as u64)),
            (key_request_id(), JsonVal::UInt(r.request_id as u64)),
            (key_status(), status_val(r.status)),
            (key_body(), bytes_arr_val(r.body)),
        ],
    )
}

// extraction of plain values from documents

/// A 32-bit unsigned field: a plain non-negative integer in range.
pub open spec fn u32_from_val(v: JsonVal) -> Option<u32> {
    match v {
        JsonVal::UInt(n) => if n <= u32::MAX {
            Some(n as u32)
        } else {
            None
        },
        _ => None,
    }
}

/// An 8-bit unsigned field.
pub open spec fn u8_from_val(v: JsonVal) -> Option<u8> {
    match v {
        JsonVal::UInt(n) => if n <= 255 {
            Some(n as u8)
        } else {
            None
        },
        _ => None,
    }
}

/// A byte-array field: every element a byte-sized integer.
pub open spec fn bytes_from_items(items: Seq<JsonVal>) -> Option<Seq<u8>>
    decreases items,
{
    if items.len() == 0 {
        Some(Seq::empty())
    } else {
        match bytes_from_items(items.drop_last()) {
            None => None,
            Some(rest) => match items.last() {
                JsonVal::UInt(n) => if n <= 255 {
                    Some(rest.push(n as u8))
                } else {
                    None
                },
                _ => None,
            },
        }
    }
}

pub open spec fn bytes_from_val(v: JsonVal) -> Option<Seq<u8>> {
    match v {
        JsonVal::Arr(items) => bytes_from_items(items),
        _ => None,
    }
}

/// A status field, by its tag.
pub open spec fn status_from_val(v: JsonVal) -> Option<ResponseStatus> {
    match v {
        JsonVal::Str(s) => if s == tag_finished() {
            Some(ResponseStatus::Finished)
        } else if s == tag_updated() {
            Some(ResponseStatus::Updated)
        } else if s == tag_failed() {
            Some(ResponseStatus::Failed)
        } else {
            None
        },
        _ => None,
    }
}

/// Field scan of a request document, in entry order: a known key must
/// hold a valid value and overwrites the earlier one; unknown keys are
/// ignored.
pub open spec fn req_scan(entries: Seq<(Seq<u8>, JsonVal)>) -> Option<
    (Option<u32>, Option<u8>, Option<Seq<u8>>),
>
    decreases entries,
{
    if entries.len() == 0 {
        Some((None, None, None))
    } else {
        match req_scan(entries.drop_last()) {
            None => None,
            Some(st) => {
                let e = entries.last();
                if e.0 == key_id() {
                    match u32_from_val(e.1) {
                        Some(x) => Some((Some(x), st.1, st.2)),
                        None => None,
                    }
                } else if e.0 == key_service_type() {
                    match u8_from_val(e.1) {
                        Some(x) => Some((st.0, Some(x), st.2)),
                        None => None,
                    }
                } else if e.0 == key_body() {
                    match bytes_from_val(e.1) {
                        Some(x) => Some((st.0, st.1, Some(x))),
                        None => None,
                    }
                } else {
                    Some(st)
                }
            }
        }
    }
}

/// The request envelope a document denotes, if it is an object with
/// all three fields valid.
pub open spec fn req_from_val(v: JsonVal) -> Option<ReqV> {
    match v {
        JsonVal::Obj(entries) => match req_scan(entries) {
            Some((Some(id), Some(st), Some(b))) => Some(
                ReqV { id, service_type: st, body: b },
            ),
            _ => None,
        },
        _ => None,
    }
}

/// Field scan of a response document.
pub open spec fn resp_scan(entries: Seq<(Seq<u8>, JsonVal)>) -> Option<
    (Option<u32>, Option<u32>, Option<ResponseStatus>, Option<Seq<u8>>),
>
    decreases entries,
{
    if entries.len() == 0 {
        Some((None, None, None, None))
    } else {
        match resp_scan(entries.drop_last()) {
            None => None,
            Some(st) => {
                let e = entries.last();
                if e.0 == key_id() {
                    match u32_from_val(e.1) {
                        Some(x) => Some((Some(x), st.1, st.2, st.3)),
                        None => None,
                    }
                } else if e.0 == key_request_id() {
                    match u32_from_val(e.1) {
                        Some(x) => Some((st.0, Some(x), st.2, st.3)),
                        None => None,
                    }
                } else if e.0 == key_status() {
                    match status_from_val(e.1) {
                        Some(x) => Some((st.0, st.1, Some(x), st.3)),
                        None => None,
                    }
                } else if e.0 == key_body() {
                    match bytes_from_val(e.1) {
                        Some(x) => Some((st.0, st.1, st.2, Some(x))),
                        None => None,
                    }
                } else {
                    Some(st)
                }
            }
        }
    }
}

/// The response envelope a document denotes.
pub open spec fn resp_from_val(v: JsonVal) -> Option<RespV> {
    match v {
        JsonVal::Obj(entries) => match resp_scan(entries) {
            Some((Some(id), Some(rid), Some(st), Some(b))) => Some(
                RespV { id, request_id: rid, status: st, body: b },
            ),
            _ => None,
        },
        _ => None,
    }
}

// executable helpers shared by both envelope directions

/// Byte-wise equality of two byte vectors.
pub fn bytes_eq(a: &Vec<u8>, b: &Vec<u8>) -> (r: bool)
    ensures
        r == (a@ == b@),
{
    if a.len() != b.len() {
        proof {
            assert(a@ != b@);
        }
        return false;
    }
    let len: usize = a.len();
    let mut i: usize = 0;
    while i < len
        invariant
            i <= len,
            len == a@.len() == b@.len(),
            forall|k: int| 0 <= k < i ==> a@[k] == b@[k],
        decreases len - i,
    {
        if a[i] != b[i] {
            return false;
        }
        i = i + 1;
    }
    proof {
        assert(a@ =~= b@);
    }
    true
}

fn key_id_vec() -> (r: Vec<u8>)
    ensures
        r@ == key_id(),
{
    let mut v: Vec<u8> = Vec::new();
    v.push(0x69);
    v.push(0x64);
    proof {
        assert(v@ =~= key_id());
    }
    v
}

fn key_service_type_vec() -> (r: Vec<u8>)
    ensures
        r@ == key_service_type(),
{
    let mut v: Vec<u8> = Vec::new();
    v.push(0x73);
    v.push(0x65);
    v.push(0x72);
    v.push(0x76);
    v.push(0x69);
    v.push(0x63);
    v.push(0x65);
    v.push(0x5f);
    v.push(0x74);
    v.push(0x79);
    v.push(0x70);
    v.push(0x65);
    proof {
        assert(v@ =~= key_service_type());
    }
    v
}

fn key_body_vec() -> (r: Vec<u8>)
    ensures
        r@ == key_body(),
{
    let mut v: Vec<u8> = Vec::new();
    v.push(0x62);
    v.push(0x6f);
    v.push(0x64);
    v.push(0x79);
    proof {
        assert(v@ =~= key_body());
    }
    v
}

fn key_request_id_vec() -> (r: Vec<u8>)
    ensures
        r@ == key_request_id(),
{
    let mut v: Vec<u8> = Vec::new();
    v.push(0x72);
    v.push(0x65);
    v.push(0x71);
    v.push(0x75);
    v.push(0x65);
    v.push(0x73);
    v.push(0x74);
    v.push(0x5f);
    v.push(0x69);
    v.push(0x64);
    proof {
        assert(v@ =~= key_request_id());
    }
    v
}

fn key_status_vec() -> (r: Vec<u8>)
    ensures
        r@ == key_status(),
{
    let mut v: Vec<u8> = Vec::new();
    v.push(0x73);
    v.push(0x74);
    v.push(0x61);
    v.push(0x74);
    v.push(0x75);
    v.push(0x73);
    proof {
        assert(v@ =~= key_status());
    }
    v
}

fn tag_finished_vec() -> (r: Vec<u8>)
    ensures
        r@ == tag_finished(),
{
    let mut v: Vec<u8> = Vec::new();
    v.push(0x46);
    v.push(0x69);
    v.push(0x6e);
    v.push(0x69);
    v.push(0x73);
    v.push(0x68);
    v.push(0x65);
    v.push(0x64);
    proof {
        assert(v@ =~= tag_finished());
    }
    v
}

fn tag_updated_vec() -> (r: Vec<u8>)
    ensures
        r@ == tag_updated(),
{
    let mut v: Vec<u8> = Vec::new();
    v.push(0x55);
    v.push(0x70);
    v.push(0x64);
    v.push(0x61);
    v.push(0x74);
    v.push(0x65);
    v.push(0x64);
    proof {
        assert(v@ =~= tag_updated());
    }
    v
}

fn tag_failed_vec() -> (r: Vec<u8>)
    ensures
        r@ == tag_failed(),
{
    let mut v: Vec<u8> = Vec::new();
    v.push(0x46);
    v.push(0x61);
    v.push(0x69);
    v.push(0x6c);
    v.push(0x65);
    v.push(0x64);
    proof {
        assert(v@ =~= tag_failed());
    }
    v
}

/// Lifts a byte body into its document form: an array of byte values.
pub fn bytes_to_json(b: &Vec<u8>) -> (n: JsonNode)
    ensures
        n@ == bytes_arr_val(b@),
{
    let len: usize = b.len();
    let mut items: Vec<JsonNode> = Vec::new();
    let mut i: usize = 0;
    while i < len
        invariant
            i <= len,
            len == b@.len(),
            items@.len() == i,
            forall|k: int| 0 <= k < i ==> items@[k] == JsonNode::UInt(b@[k] as u64),
        decreases len - i,
    {
        items.push(JsonNode::UInt(b[i] as u64));
        i = i + 1;
    }
    proof {
        crate::encode::lemma_nodes_view_index(items@);
        assert(nodes_view(items@) =~= Seq::new(b@.len(), |k: int| JsonVal::UInt(b@[k] as u64)));
    }
    JsonNode::Arr(items)
}

/// Reads a byte body back out of its document form.
pub fn json_to_bytes(n: &JsonNode) -> (r: Result<Vec<u8>, JsonError>)
    ensures
        match r {
            Ok(b) => bytes_from_val(n@) == Some(b@),
            Err(_) => bytes_from_val(n@) is None,
        },
{
    match n {
        JsonNode::Arr(items) => {
            proof {
                crate::encode::lemma_nodes_view_index(items@);
                assert(n@ == JsonVal::Arr(nodes_view(items@)));
            }
            let len: usize = items.len();
            let mut out: Vec<u8> = Vec::new();
            let mut i: usize = 0;
            while i < len
                invariant
                    i <= len,
                    len == items@.len(),
                    n@ == JsonVal::Arr(nodes_view(items@)),
                    nodes_view(items@).len() == len,
                    forall|k: int|
                        0 <= k < len ==> #[trigger] nodes_view(items@)[k] == crate::json::node_view(
                            items@[k],
                        ),
                    bytes_from_items(nodes_view(items@).take(i as int)) == Some(out@),
                decreases len - i,
            {
                let ghost pre = nodes_view(items@).take(i as int);
                proof {
                    assert(nodes_view(items@).take(i + 1).drop_last() =~= pre);
                    assert(nodes_view(items@).take(i + 1).last() == nodes_view(items@)[i as int]);
                }
                match &items[i] {
                    JsonNode::UInt(x) => {
                        if *x <= 255 {
                            out.push(*x as u8);
                        } else {
                            proof {
                                assert(nodes_view(items@)[i as int] == JsonVal::UInt(*x as u64));
                                assert(bytes_from_items(nodes_view(items@).take(i + 1)) is None);
                                lemma_bytes_from_items_none(nodes_view(items@), i + 1);
                                assert(bytes_from_val(n@) is None);
                            }
                            return Err(JsonError);
                        }
                    }
                    _ => {
                        proof {
                            assert(!(crate::json::node_view(items@[i as int]) is UInt));
                            assert(bytes_from_items(nodes_view(items@).take(i + 1)) is None);
                            lemma_bytes_from_items_none(nodes_view(items@), i + 1);
                            assert(bytes_from_val(n@) is None);
                        }
                        return Err(JsonError);
                    }
                }
                i = i + 1;
            }
            proof {
                assert(nodes_view(items@).take(len as int) =~= nodes_view(items@));
            }
            Ok(out)
        }
        _ => Err(JsonError),
    }
}

/// Once a prefix of the element list fails, the whole list fails.
proof fn lemma_bytes_from_items_none(items: Seq<JsonVal>, k: int)
    requires
        0 <= k <= items.len(),
        bytes_from_items(items.take(k)) is None,
    ensures
        bytes_from_items(items) is None,
    decreases items.len() - k,
{
    if k == items.len() {
        assert(items.take(k) =~= items);
    } else {
        assert(items.take(k + 1).drop_last() =~= items.take(k));
        lemma_bytes_from_items_none(items, k + 1);
    }
}

/// A byte-array document is always emittable.
pub proof fn lemma_bytes_arr_wf(b: Seq<u8>)
    ensures
        enc_wf(bytes_arr_val(b)),
    decreases b.len(),
{
    let items = Seq::new(b.len(), |i: int| JsonVal::UInt(b[i] as u64));
    if b.len() == 0 {
        assert(arr_wf(items));
    } else {
        lemma_bytes_arr_wf(b.drop_last());
        let prev = Seq::new(b.drop_last().len(), |i: int| JsonVal::UInt(b.drop_last()[i] as u64));
        assert(items.drop_last() =~= prev);
        assert(items.last() == JsonVal::UInt(b.last() as u64));
        assert(arr_wf(items)) by {
            reveal_with_fuel(crate::encode::arr_wf, 2);
            reveal_with_fuel(crate::encode::enc_wf, 2);
        }
    }
}

/// A request document is always emittable.
pub proof fn lemma_req_val_wf(r: ReqV)
    ensures
        enc_wf(req_val(r)),
{
    lemma_bytes_arr_wf(r.body);
    let e0 = (key_id(), JsonVal::UInt(r.id as u64));
    let e1 = (key_service_type(), JsonVal::UInt(r.service_type as u64));
    let e2 = (key_body(), bytes_arr_val(r.body));
    let l1 = seq![e0];
    let l2 = seq![e0, e1];
    let l3 = seq![e0, e1, e2];
    assert(l1.drop_last() =~= Seq::<(Seq<u8>, JsonVal)>::empty());
    assert(l2.drop_last() =~= l1);
    assert(l3.drop_last() =~= l2);
    assert(crate::encode::obj_wf(l3)) by {
        reveal_with_fuel(crate::encode::obj_wf, 5);
        reveal_with_fuel(crate::encode::enc_wf, 2);
    }
}

/// A response document is always emittable.
pub proof fn lemma_resp_val_wf(r: RespV)
    ensures
        enc_wf(resp_val(r)),
{
    lemma_bytes_arr_wf(r.body);
    let e0 = (key_id(), JsonVal::UInt(r.id as u64));
    let e1 = (key_request_id(), JsonVal::UInt(r.request_id as u64));
    let e2 = (key_status(), status_val(r.status));
    let e3 = (key_body(), bytes_arr_val(r.body));
    let l1 = seq![e0];
    let l2 = seq![e0, e1];
    let l3 = seq![e0, e1, e2];
    let l4 = seq![e0, e1, e2, e3];
    assert(l1.drop_last() =~= Seq::<(Seq<u8>, JsonVal)>::empty());
    assert(l2.drop_last() =~= l1);
    assert(l3.drop_last() =~= l2);
    assert(l4.drop_last() =~= l3);
    assert(crate::encode::obj_wf(l4)) by {
        reveal_with_fuel(crate::encode::obj_wf, 6);
        reveal_with_fuel(crate::encode::enc_wf, 2);
    }
}

impl RPCRequest {
    /// Builds a fresh request with an empty body.
    pub fn new(service_type: u8, counter: &mut IdCounter) -> (r: RPCRequest)
        ensures
            r@.id == old(counter).next_id(),
            final(counter).next_id() == next_id_after(old(counter).next_id()),
            r@.service_type == service_type,
            r@.body == Seq::<u8>::empty(),
    {
        let id: u32 = get_request_id(counter);
        RPCRequest { id, service_type, body: Vec::new() }
    }

    /// Serializes a document into the envelope's opaque body.
    pub fn encode_body(&mut self, body: &JsonNode)
        requires
            enc_wf(body@),
        ensures
            final(self)@.body == enc_val(body@),
            final(self)@.id == old(self)@.id,
            final(self)@.service_type == old(self)@.service_type,
    {
        self.body = to_json_bytes(body);
    }

    /// Reads the opaque body back as a document; any malformed body
    /// is rejected.
    pub fn decode_body(&self) -> (r: Result<JsonNode, JsonError>)
        ensures
            match spec_parse(self@.body) {
                Some(v) => r is Ok && r.unwrap()@ == v,
                None => r is Err,
            },
    {
        parse_json(&self.body)
    }

    /// The envelope as a document, fields in wire order.
    pub fn to_json(&self) -> (n: JsonNode)
        ensures
            n@ == req_val(self@),
    {
        let mut entries: Vec<(Vec<u8>, JsonNode)> = Vec::new();
        entries.push((key_id_vec(), JsonNode::UInt(self.id as u64)));
        entries.push((key_service_type_vec(), JsonNode::UInt(self.service_type as u64)));
        entries.push((key_body_vec(), bytes_to_json(&self.body)));
        proof {
            crate::encode::lemma_entry_nodes_view_index(entries@);
            assert(entry_nodes_view(entries@) =~= req_val(self@)->Obj_0);
        }
        JsonNode::Obj(entries)
    }
}

impl RPCResponse {
    /// A terminal success envelope with an empty body.
    pub fn finished(request_id: u32, counter: &mut IdCounter) -> (r: RPCResponse)
        ensures
            r@.request_id == request_id,
            r@.id == old(counter).next_id(),
            final(counter).next_id() == next_id_after(old(counter).next_id()),
            r@.status == ResponseStatus::Finished,
            r@.body == Seq::<u8>::empty(),
    {
        let id: u32 = get_response_id(counter);
        RPCResponse { id, request_id, status: ResponseStatus::Finished, body: Vec::new() }
    }

    /// A terminal failure envelope with an empty body.
    pub fn failed(request_id: u32, counter: &mut IdCounter) -> (r: RPCResponse)
        ensures
            r@.request_id == request_id,
            r@.id == old(counter).next_id(),
            final(counter).next_id() == next_id_after(old(counter).next_id()),
            r@.status == ResponseStatus::Failed,
            r@.body == Seq::<u8>::empty(),
    {
        let id: u32 = get_response_id(counter);
        RPCResponse { id, request_id, status: ResponseStatus::Failed, body: Vec::new() }
    }

    /// A monitor-notification envelope with an empty body.
    pub fn updated(request_id: u32, counter: &mut IdCounter) -> (r: RPCResponse)
        ensures
            r@.request_id == request_id,
            r@.id == old(counter).next_id(),
            final(counter).next_id() == next_id_after(old(counter).next_id()),
            r@.status == ResponseStatus::Updated,
            r@.body == Seq::<u8>::empty(),
    {
        let id: u32 = get_response_id(counter);
        RPCResponse { id, request_id, status: ResponseStatus::Updated, body: Vec::new() }
    }

    /// Serializes a document into the envelope's opaque body.
    pub fn encode_body(&mut self, body: &JsonNode)
        requires
            enc_wf(body@),
        ensures
            final(self)@.body == enc_val(body@),
            final(self)@.id == old(self)@.id,
            final(self)@.request_id == old(self)@.request_id,
            final(self)@.status == old(self)@.status,
    {
        self.body = to_json_bytes(body);
    }

    /// Reads the opaque body back as a document.
    pub fn decode_body(&self) -> (r: Result<JsonNode, JsonError>)
        ensures
            match spec_parse(self@.body) {
                Some(v) => r is Ok && r.unwrap()@ == v,
                None => r is Err,
            },
    {
        parse_json(&self.body)
    }

    /// The envelope as a document, fields in wire order.
    pub fn to_json(&self) -> (n: JsonNode)
        ensures
            n@ == resp_val(self@),
    {
        let status_node: JsonNode = match self.status {
            ResponseStatus::Finished => JsonNode::Str(tag_finished_vec()),
            ResponseStatus::Updated => JsonNode::Str(tag_updated_vec()),
            ResponseStatus::Failed => JsonNode::Str(tag_failed_vec()),
        };
        let mut entries: Vec<(Vec<u8>, JsonNode)> = Vec::new();
        entries.push((key_id_vec(), JsonNode::UInt(self.id as u64)));
        entries.push((key_request_id_vec(), JsonNode::UInt(self.request_id as u64)));
        entries.push((key_status_vec(), status_node));
        entries.push((key_body_vec(), bytes_to_json(&self.body)));
        proof {
            crate::encode::lemma_entry_nodes_view_index(entries@);
            assert(entry_nodes_view(entries@) =~= resp_val(self@)->Obj_0);
        }
        JsonNode::Obj(entries)
    }
}

/// Spec value of an optional byte vector.
pub open spec fn opt_bytes_view(o: Option<Vec<u8>>) -> Option<Seq<u8>> {
    match o {
        Some(v) => Some(v@),
        None => None,
    }
}

/// Reads a 32-bit unsigned field.
pub(crate) fn u32_field(n: &JsonNode) -> (r: Option<u32>)
    ensures
        r == u32_from_val(n@),
{
    match n {
        JsonNode::UInt(x) => if *x <= 4294967295u64 {
            Some(*x as u32)
        } else {
            None
        },
        _ => None,
    }
}

/// Reads an 8-bit unsigned field.
fn u8_field(n: &JsonNode) -> (r: Option<u8>)
    ensures
        r == u8_from_val(n@),
{
    match n {
        JsonNode::UInt(x) => if *x <= 255u64 {
            Some(*x as u8)
        } else {
            None
        },
        _ => None,
    }
}

/// Reads a status field by its tag.
fn status_field(n: &JsonNode) -> (r: Option<ResponseStatus>)
    ensures
        r == status_from_val(n@),
{
    match n {
        JsonNode::Str(s) => {
            let fin = tag_finished_vec();
            let upd = tag_updated_vec();
            let fai = tag_failed_vec();
            if bytes_eq(s, &fin) {
                Some(ResponseStatus::Finished)
            } else if bytes_eq(s, &upd) {
                Some(ResponseStatus::Updated)
            } else if bytes_eq(s, &fai) {
                Some(ResponseStatus::Failed)
            } else {
                None
            }
        }
        _ => None,
    }
}

impl RPCRequest {
    /// Reads a request envelope out of a document, exactly as
    /// [`req_from_val`] describes.
    pub fn from_json(n: &JsonNode) -> (r: Result<RPCRequest, JsonError>)
        ensures
            match r {
                Ok(q) => req_from_val(n@) == Some(q@),
                Err(_) => req_from_val(n@) is None,
            },
    {
        match n {
            JsonNode::Obj(entries) => {
                proof {
                    crate::encode::lemma_entry_nodes_view_index(entries@);
                    assert(n@ == JsonVal::Obj(entry_nodes_view(entries@)));
                }
                let key_id_v: Vec<u8> = key_id_vec();
                let key_st_v: Vec<u8> = key_service_type_vec();
                let key_body_v: Vec<u8> = key_body_vec();
                let len: usize = entries.len();
                let mut ok: bool = true;
                let mut fid: Option<u32> = None;
                let mut fst: Option<u8> = None;
                let mut fbody: Option<Vec<u8>> = None;
                let mut i: usize = 0;
                while i < len
                    invariant
                        i <= len,
                        len == entries@.len(),
                        entry_nodes_view(entries@).len() == len,
                        forall|k: int|
                            0 <= k < len ==> #[trigger] entry_nodes_view(entries@)[k] == (
                                entries@[k].0@,
                                crate::json::node_view(entries@[k].1),
                            ),
                        key_id_v@ == key_id(),
                        key_st_v@ == key_service_type(),
                        key_body_v@ == key_body(),
                        ok ==> req_scan(entry_nodes_view(entries@).take(i as int)) == Some(
                            (fid, fst, opt_bytes_view(fbody)),
                        ),
                        !ok ==> req_scan(entry_nodes_view(entries@).take(i as int)) is None,
                    decreases len - i,
                {
                    proof {
                        assert(entry_nodes_view(entries@).take(i + 1).drop_last()
                            =~= entry_nodes_view(entries@).take(i as int));
                        assert(entry_nodes_view(entries@).take(i + 1).last()
                            == entry_nodes_view(entries@)[i as int]);
                    }
                    if ok {
                        let e = &entries[i];
                        if bytes_eq(&e.0, &key_id_v) {
                            match u32_field(&e.1) {
                                Some(x) => {
                                    fid = Some(x);
                                }
                                None => {
                                    ok = false;
                                }
                            }
                        } else if bytes_eq(&e.0, &key_st_v) {
                            match u8_field(&e.1) {
                                Some(x) => {
                                    fst = Some(x);
                                }
                                None => {
                                    ok = false;
                                }
                            }
                        } else if bytes_eq(&e.0, &key_body_v) {
                            match json_to_bytes(&e.1) {
                                Ok(b) => {
                                    fbody = Some(b);
                                }
                                Err(_) => {
                                    ok = false;
                                }
                            }
                        }
                    }
                    i = i + 1;
                }
                proof {
                    assert(entry_nodes_view(entries@).take(len as int) =~= entry_nodes_view(
                        entries@,
                    ));
                }
                if ok {
                    match (fid, fst, fbody) {
                        (Some(id), Some(service_type), Some(body)) => Ok(
                            RPCRequest { id, service_type, body },
                        ),
                        _ => Err(JsonError),
                    }
                } else {
                    Err(JsonError)
                }
            }
            _ => Err(JsonError),
        }
    }
}

impl RPCResponse {
    /// Reads a response envelope out of a document, exactly as
    /// [`resp_from_val`] describes.
    pub fn from_json(n: &JsonNode) -> (r: Result<RPCResponse, JsonError>)
        ensures
            match r {
                Ok(q) => resp_from_val(n@) == Some(q@),
                Err(_) => resp_from_val(n@) is None,
            },
    {
        match n {
            JsonNode::Obj(entries) => {
                proof {
                    crate::encode::lemma_entry_nodes_view_index(entries@);
                    assert(n@ == JsonVal::Obj(entry_nodes_view(entries@)));
                }
                let key_id_v: Vec<u8> = key_id_vec();
                let key_rid_v: Vec<u8> = key_request_id_vec();
                let key_status_v: Vec<u8> = key_status_vec();
                let key_body_v: Vec<u8> = key_body_vec();
                let len: usize = entries.len();
                let mut ok: bool = true;
                let mut fid: Option<u32> = None;
                let mut frid: Option<u32> = None;
                let mut fstatus: Option<ResponseStatus> = None;
                let mut fbody: Option<Vec<u8>> = None;
                let mut i: usize = 0;
                while i < len
                    invariant
                        i <= len,
                        len == entries@.len(),
                        entry_nodes_view(entries@).len() == len,
                        forall|k: int|
                            0 <= k < len ==> #[trigger] entry_nodes_view(entries@)[k] == (
                                entries@[k].0@,
                                crate::json::node_view(entries@[k].1),
                            ),
                        key_id_v@ == key_id(),
                        key_rid_v@ == key_request_id(),
                        key_status_v@ == key_status(),
                        key_body_v@ == key_body(),
                        ok ==> resp_scan(entry_nodes_view(entries@).take(i as int)) == Some(
                            (fid, frid, fstatus, opt_bytes_view(fbody)),
                        ),
                        !ok ==> resp_scan(entry_nodes_view(entries@).take(i as int)) is None,
                    decreases len - i,
                {
                    proof {
                        assert(entry_nodes_view(entries@).take(i + 1).drop_last()
                            =~= entry_nodes_view(entries@).take(i as int));
                        assert(entry_nodes_view(entries@).take(i + 1).last()
                            == entry_nodes_view(entries@)[i as int]);
                    }
                    if ok {
                        let e = &entries[i];
                        if bytes_eq(&e.0, &key_id_v) {
                            match u32_field(&e.1) {
                                Some(x) => {
                                    fid = Some(x);
                                }
                                None => {
                                    ok = false;
                                }
                            }
                        } else if bytes_eq(&e.0, &key_rid_v) {
                            match u32_field(&e.1) {
                                Some(x) => {
                                    frid = Some(x);
                                }
                                None => {
                                    ok = false;
                                }
                            }
                        } else if bytes_eq(&e.0, &key_status_v) {
                            match status_field(&e.1) {
                                Some(x) => {
                                    fstatus = Some(x);
                                }
                                None => {
                                    ok = false;
                                }
                            }
                        } else if bytes_eq(&e.0, &key_body_v) {
                            match json_to_bytes(&e.1) {
                                Ok(b) => {
                                    fbody = Some(b);
                                }
                                Err(_) => {
                                    ok = false;
                                }
                            }
                        }
                    }
                    i = i + 1;
                }
                proof {
                    assert(entry_nodes_view(entries@).take(len as int) =~= entry_nodes_view(
                        entries@,
                    ));
                }
                if ok {
                    match (fid, frid, fstatus, fbody) {
                        (Some(id), Some(request_id), Some(status), Some(body)) => Ok(
                            RPCResponse { id, request_id, status, body },
                        ),
                        _ => Err(JsonError),
                    }
                } else {
                    Err(JsonError)
                }
            }
            _ => Err(JsonError),
        }
    }
}

/// Reads a request envelope from its wire bytes.
pub fn decode_request(bytes: &Vec<u8>) -> (r: Result<RPCRequest, JsonError>)
    ensures
        match r {
            Ok(q) => spec_parse(bytes@) is Some && req_from_val(spec_parse(bytes@).unwrap())
                == Some(q@),
            Err(_) => spec_parse(bytes@) is None || req_from_val(
                spec_parse(bytes@).unwrap(),
            ) is None,
        },
{
    match parse_json(bytes) {
        Err(_) => Err(JsonError),
        Ok(n) => RPCRequest::from_json(&n),
    }
}

/// Reads a response envelope from its wire bytes.
pub fn decode_response(bytes: &Vec<u8>) -> (r: Result<RPCResponse, JsonError>)
    ensures
        match r {
            Ok(q) => spec_parse(bytes@) is Some && resp_from_val(spec_parse(bytes@).unwrap())
                == Some(q@),
            Err(_) => spec_parse(bytes@) is None || resp_from_val(
                spec_parse(bytes@).unwrap(),
            ) is None,
        },
{
    match parse_json(bytes) {
        Err(_) => Err(JsonError),
        Ok(n) => RPCResponse::from_json(&n),
    }
}

/// The invalid-service-type failure: status `Failed`, the request's
/// id echoed, and the literal message as the whole body document.
pub fn failed_invalid_service_type(request: &RPCRequest, counter: &mut IdCounter) -> (r:
    RPCResponse)
    ensures
        r@.request_id == request@.id,
        r@.id == old(counter).next_id(),
        final(counter).next_id() == next_id_after(old(counter).next_id()),
        r@.status == ResponseStatus::Failed,
        r@.body == enc_val(JsonVal::Str(vstd::utf8::encode_utf8("Invalid service type"@))),
{
    let mut resp: RPCResponse = RPCResponse::failed(request.id, counter);
    let msg: &str = "Invalid service type";
    let node: JsonNode = JsonNode::Str(msg.as_bytes_vec());
    resp.encode_body(&node);
    resp
}

/// Renders a request envelope to its wire bytes.
pub fn encode_request(req: &RPCRequest) -> (r: Vec<u8>)
    ensures
        r@ == enc_val(req_val(req@)),
{
    proof {
        lemma_req_val_wf(req@);
    }
    let n: JsonNode = req.to_json();
    to_json_bytes(&n)
}

/// Renders a response envelope to its wire bytes.
pub fn encode_response(resp: &RPCResponse) -> (r: Vec<u8>)
    ensures
        r@ == enc_val(resp_val(resp@)),
{
    proof {
        lemma_resp_val_wf(resp@);
    }
    let n: JsonNode = resp.to_json();
    to_json_bytes(&n)
}

} // verus!
