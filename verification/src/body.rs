//! The per-service body schemas.
//!
//! Each service's request and success bodies are small JSON objects
//! with required fields; a failure body carries a single `error`
//! string. Bodies come in a handful of shapes — one or two unsigned
//! fields, one or two strings, an id list, and the flight-details
//! record — shared here by all thirteen body types.
//!
//! Text fields are `String`s; on the wire they ride as UTF-8 bytes.
//! Fares ride as two-decimal numbers and are held here in hundredths
//! (`airfare_cents`), which the wire form represents exactly.

use vstd::prelude::*;

use vstd::utf8::{decode_utf8, encode_utf8, valid_utf8};

use vstd::string::StrSliceExecFns;

use crate::decode::JsonError;
use crate::encode::dec_cents;
use crate::envelope::bytes_eq;
use crate::json::{entry_nodes_view, nodes_view, DecNumber, JsonNode, JsonVal};

verus! {

broadcast use vstd::std_specs::vec::group_vec_axioms, vstd::seq::group_seq_axioms;

// field names, as byte strings

pub open spec fn key_source() -> Seq<u8> {
    seq![0x73u8, 0x6f, 0x75, 0x72, 0x63, 0x65]
}

pub open spec fn key_destination() -> Seq<u8> {
    seq![0x64u8, 0x65, 0x73, 0x74, 0x69, 0x6e, 0x61, 0x74, 0x69, 0x6f, 0x6e]
}

pub open spec fn key_flight_id() -> Seq<u8> {
    seq![0x66u8, 0x6c, 0x69, 0x67, 0x68, 0x74, 0x5f, 0x69, 0x64]
}

pub open spec fn key_flight_ids() -> Seq<u8> {
    seq![0x66u8, 0x6c, 0x69, 0x67, 0x68, 0x74, 0x5f, 0x69, 0x64, 0x73]
}

pub open spec fn key_num_seat() -> Seq<u8> {
    seq![0x6eu8, 0x75, 0x6d, 0x5f, 0x73, 0x65, 0x61, 0x74]
}

pub open spec fn key_monitor_interval() -> Seq<u8> {
    seq![0x6du8, 0x6f, 0x6e, 0x69, 0x74, 0x6f, 0x72, 0x5f, 0x69, 0x6e, 0x74, 0x65, 0x72, 0x76,
        0x61, 0x6c]
}

pub open spec fn key_amount_in_kg() -> Seq<u8> {
    seq![0x61u8, 0x6d, 0x6f, 0x75, 0x6e, 0x74, 0x5f, 0x69, 0x6e, 0x5f, 0x6b, 0x67]
}

pub open spec fn key_message() -> Seq<u8> {
    seq![0x6du8, 0x65, 0x73, 0x73, 0x61, 0x67, 0x65]
}

pub open spec fn key_error() -> Seq<u8> {
    seq![0x65u8, 0x72, 0x72, 0x6f, 0x72]
}

pub open spec fn key_seat_avail() -> Seq<u8> {
    seq![0x73u8, 0x65, 0x61, 0x74, 0x5f, 0x61, 0x76, 0x61, 0x69, 0x6c]
}

pub open spec fn key_departure_time() -> Seq<u8> {
    seq![0x64u8, 0x65, 0x70, 0x61, 0x72, 0x74, 0x75, 0x72, 0x65, 0x5f, 0x74, 0x69, 0x6d, 0x65]
}

pub open spec fn key_airfare() -> Seq<u8> {
    seq![0x61u8, 0x69, 0x72, 0x66, 0x61, 0x72, 0x65]
}

fn push_all(v: &mut Vec<u8>, b0: u8, b1: u8, b2: u8, b3: u8)
    ensures
        final(v)@ == old(v)@ + seq![b0, b1, b2, b3],
{
    v.push(b0);
    v.push(b1);
    v.push(b2);
    v.push(b3);
    proof {
        assert(v@ =~= old(v)@ + seq![b0, b1, b2, b3]);
    }
}

fn key_source_vec() -> (r: Vec<u8>)
    ensures
        r@ == key_source(),
{
    let mut v: Vec<u8> = Vec::new();
    push_all(&mut v, 0x73, 0x6f, 0x75, 0x72);
    v.push(0x63);
    v.push(0x65);
    proof {
        assert(v@ =~= key_source());
    }
    v
}

fn key_destination_vec() -> (r: Vec<u8>)
    ensures
        r@ == key_destination(),
{
    let mut v: Vec<u8> = Vec::new();
    push_all(&mut v, 0x64, 0x65, 0x73, 0x74);
    push_all(&mut v, 0x69, 0x6e, 0x61, 0x74);
    v.push(0x69);
    v.push(0x6f);
    v.push(0x6e);
    proof {
        assert(v@ =~= key_destination());
    }
    v
}

fn key_flight_id_vec() -> (r: Vec<u8>)
    ensures
        r@ == key_flight_id(),
{
    let mut v: Vec<u8> = Vec::new();
    push_all(&mut v, 0x66, 0x6c, 0x69, 0x67);
    push_all(&mut v, 0x68, 0x74, 0x5f, 0x69);
    v.push(0x64);
    proof {
        assert(v@ =~= key_flight_id());
    }
    v
}

fn key_flight_ids_vec() -> (r: Vec<u8>)
    ensures
        r@ == key_flight_ids(),
{
    let mut v: Vec<u8> = key_flight_id_vec();
    v.push(0x73);
    proof {
        assert(v@ =~= key_flight_ids());
    }
    v
}

fn key_num_seat_vec() -> (r: Vec<u8>)
    ensures
        r@ == key_num_seat(),
{
    let mut v: Vec<u8> = Vec::new();
    push_all(&mut v, 0x6e, 0x75, 0x6d, 0x5f);
    push_all(&mut v, 0x73, 0x65, 0x61, 0x74);
    proof {
        assert(v@ =~= key_num_seat());
    }
    v
}

fn key_monitor_interval_vec() -> (r: Vec<u8>)
    ensures
        r@ == key_monitor_interval(),
{
    let mut v: Vec<u8> = Vec::new();
    push_all(&mut v, 0x6d, 0x6f, 0x6e, 0x69);
    push_all(&mut v, 0x74, 0x6f, 0x72, 0x5f);
    push_all(&mut v, 0x69, 0x6e, 0x74, 0x65);
    push_all(&mut v, 0x72, 0x76, 0x61, 0x6c);
    proof {
        assert(v@ =~= key_monitor_interval());
    }
    v
}

fn key_amount_in_kg_vec() -> (r: Vec<u8>)
    ensures
        r@ == key_amount_in_kg(),
{
    let mut v: Vec<u8> = Vec::new();
    push_all(&mut v, 0x61, 0x6d, 0x6f, 0x75);
    push_all(&mut v, 0x6e, 0x74, 0x5f, 0x69);
    push_all(&mut v, 0x6e, 0x5f, 0x6b, 0x67);
    proof {
        assert(v@ =~= key_amount_in_kg());
    }
    v
}

fn key_message_vec() -> (r: Vec<u8>)
    ensures
        r@ == key_message(),
{
    let mut v: Vec<u8> = Vec::new();
    push_all(&mut v, 0x6d, 0x65, 0x73, 0x73);
    v.push(0x61);
    v.push(0x67);
    v.push(0x65);
    proof {
        assert(v@ =~= key_message());
    }
    v
}

fn key_error_vec() -> (r: Vec<u8>)
    ensures
        r@ == key_error(),
{
    let mut v: Vec<u8> = Vec::new();
    push_all(&mut v, 0x65, 0x72, 0x72, 0x6f);
    v.push(0x72);
    proof {
        assert(v@ =~= key_error());
    }
    v
}

fn key_seat_avail_vec() -> (r: Vec<u8>)
    ensures
        r@ == key_seat_avail(),
{
    let mut v: Vec<u8> = Vec::new();
    push_all(&mut v, 0x73, 0x65, 0x61, 0x74);
    push_all(&mut v, 0x5f, 0x61, 0x76, 0x61);
    v.push(0x69);
    v.push(0x6c);
    proof {
        assert(v@ =~= key_seat_avail());
    }
    v
}

fn key_departure_time_vec() -> (r: Vec<u8>)
    ensures
        r@ == key_departure_time(),
{
    let mut v: Vec<u8> = Vec::new();
    push_all(&mut v, 0x64, 0x65, 0x70, 0x61);
    push_all(&mut v, 0x72, 0x74, 0x75, 0x72);
    push_all(&mut v, 0x65, 0x5f, 0x74, 0x69);
    v.push(0x6d);
    v.push(0x65);
    proof {
        assert(v@ =~= key_departure_time());
    }
    v
}

fn key_airfare_vec() -> (r: Vec<u8>)
    ensures
        r@ == key_airfare(),
{
    let mut v: Vec<u8> = Vec::new();
    push_all(&mut v, 0x61, 0x69, 0x72, 0x66);
    v.push(0x61);
    v.push(0x72);
    v.push(0x65);
    proof {
        assert(v@ =~= key_airfare());
    }
    v
}

// field values

/// A text field: a string of the UTF-8 bytes of the text.
pub open spec fn string_val(s: Seq<char>) -> JsonVal {
    JsonVal::Str(encode_utf8(s))
}

/// Text read back from a string field: the bytes must be valid UTF-8.
pub open spec fn string_from_val(v: JsonVal) -> Option<Seq<char>> {
    match v {
        JsonVal::Str(b) => if valid_utf8(b) {
            Some(decode_utf8(b))
        } else {
            None
        },
        _ => None,
    }
}

/// A signed field: non-negative values keep the unsigned shape.
pub open spec fn i32_val(x: i32) -> JsonVal {
    if x >= 0 {
        JsonVal::UInt(x as u64)
    } else {
        JsonVal::Int(x as i64)
    }
}

/// A signed 32-bit value read back from a number field.
pub open spec fn i32_from_val(v: JsonVal) -> Option<i32> {
    match v {
        JsonVal::UInt(n) => if n <= i32::MAX {
            Some(n as i32)
        } else {
            None
        },
        JsonVal::Int(x) => if x >= i32::MIN {
            Some(x as i32)
        } else {
            None
        },
        _ => None,
    }
}

/// A fare in hundredths as it rides on the wire: a two-decimal
/// number.
pub open spec fn cents_val(cents: u32) -> JsonVal {
    JsonVal::Dec(DecNumber { neg: false, mantissa: cents as u64, exp10: -2i32 })
}

/// A fare read back from a number field: any number denoting a
/// non-negative value exactly representable in hundredths, in range.
pub open spec fn cents_from_val(v: JsonVal) -> Option<u32> {
    match v {
        JsonVal::UInt(n) => if n * 100 <= u32::MAX {
            Some((n * 100) as u32)
        } else {
            None
        },
        JsonVal::Dec(d) => if (!d.neg || d.mantissa == 0) && d.exp10 >= -2 && dec_cents(d)
            <= u32::MAX {
            Some(dec_cents(d) as u32)
        } else {
            None
        },
        _ => None,
    }
}

/// An id list as it rides on the wire: an array of unsigned values.
pub open spec fn u32_arr_val(xs: Seq<u32>) -> JsonVal {
    JsonVal::Arr(Seq::new(xs.len(), |i: int| JsonVal::UInt(xs[i] as u64)))
}

/// An id list read back from an array field.
pub open spec fn u32s_from_items(items: Seq<JsonVal>) -> Option<Seq<u32>>
    decreases items,
{
    if items.len() == 0 {
        Some(Seq::empty())
    } else {
        match u32s_from_items(items.drop_last()) {
            None => None,
            Some(rest) => match items.last() {
                JsonVal::UInt(n) => if n <= u32::MAX {
                    Some(rest.push(n as u32))
                } else {
                    None
                },
                _ => None,
            },
        }
    }
}

pub open spec fn u32_arr_from_val(v: JsonVal) -> Option<Seq<u32>> {
    match v {
        JsonVal::Arr(items) => u32s_from_items(items),
        _ => None,
    }
}

// object shapes shared by the body types: the generic scans mirror the
// envelope's field discipline (any order, unknown keys ignored, every
// occurrence of a known key validated, the last one kept)

/// Generic field scan: for each known key, every occurrence must
/// satisfy its extractor and the last extracted value is kept.
pub open spec fn scan2<A, B>(
    entries: Seq<(Seq<u8>, JsonVal)>,
    k1: Seq<u8>,
    f1: spec_fn(JsonVal) -> Option<A>,
    k2: Seq<u8>,
    f2: spec_fn(JsonVal) -> Option<B>,
) -> Option<(Option<A>, Option<B>)>
    decreases entries,
{
    if entries.len() == 0 {
        Some((None, None))
    } else {
        match scan2(entries.drop_last(), k1, f1, k2, f2) {
            None => None,
            Some(st) => {
                let e = entries.last();
                if e.0 == k1 {
                    match f1(e.1) {
                        Some(x) => Some((Some(x), st.1)),
                        None => None,
                    }
                } else if e.0 == k2 {
                    match f2(e.1) {
                        Some(x) => Some((st.0, Some(x))),
                        None => None,
                    }
                } else {
                    Some(st)
                }
            }
        }
    }
}

/// One-field form of [`scan2`].
pub open spec fn scan1<A>(
    entries: Seq<(Seq<u8>, JsonVal)>,
    k: Seq<u8>,
    f: spec_fn(JsonVal) -> Option<A>,
) -> Option<Option<A>>
    decreases entries,
{
    if entries.len() == 0 {
        Some(None)
    } else {
        match scan1(entries.drop_last(), k, f) {
            None => None,
            Some(st) => {
                let e = entries.last();
                if e.0 == k {
                    match f(e.1) {
                        Some(x) => Some(Some(x)),
                        None => None,
                    }
                } else {
                    Some(st)
                }
            }
        }
    }
}

/// Three-field form of [`scan2`].
pub open spec fn scan3<A, B, C>(
    entries: Seq<(Seq<u8>, JsonVal)>,
    k1: Seq<u8>,
    f1: spec_fn(JsonVal) -> Option<A>,
    k2: Seq<u8>,
    f2: spec_fn(JsonVal) -> Option<B>,
    k3: Seq<u8>,
    f3: spec_fn(JsonVal) -> Option<C>,
) -> Option<(Option<A>, Option<B>, Option<C>)>
    decreases entries,
{
    if entries.len() == 0 {
        Some((None, None, None))
    } else {
        match scan3(entries.drop_last(), k1, f1, k2, f2, k3, f3) {
            None => None,
            Some(st) => {
                let e = entries.last();
                if e.0 == k1 {
                    match f1(e.1) {
                        Some(x) => Some((Some(x), st.1, st.2)),
                        None => None,
                    }
                } else if e.0 == k2 {
                    match f2(e.1) {
                        Some(x) => Some((st.0, Some(x), st.2)),
                        None => None,
                    }
                } else if e.0 == k3 {
                    match f3(e.1) {
                        Some(x) => Some((st.0, st.1, Some(x))),
                        None => None,
                    }
                } else {
                    Some(st)
                }
            }
        }
    }
}

/// An object read as one required field under `k`.
pub open spec fn obj1_from_val<A>(v: JsonVal, k: Seq<u8>, f: spec_fn(JsonVal) -> Option<A>)
    -> Option<A> {
    match v {
        JsonVal::Obj(entries) => match scan1(entries, k, f) {
            Some(Some(x)) => Some(x),
            _ => None,
        },
        _ => None,
    }
}

/// An object read as two required fields under `k1` and `k2`.
pub open spec fn obj2_from_val<A, B>(
    v: JsonVal,
    k1: Seq<u8>,
    f1: spec_fn(JsonVal) -> Option<A>,
    k2: Seq<u8>,
    f2: spec_fn(JsonVal) -> Option<B>,
) -> Option<(A, B)> {
    match v {
        JsonVal::Obj(entries) => match scan2(entries, k1, f1, k2, f2) {
            Some((Some(a), Some(b))) => Some((a, b)),
            _ => None,
        },
        _ => None,
    }
}

/// An object read as three required fields.
pub open spec fn obj3_from_val<A, B, C>(
    v: JsonVal,
    k1: Seq<u8>,
    f1: spec_fn(JsonVal) -> Option<A>,
    k2: Seq<u8>,
    f2: spec_fn(JsonVal) -> Option<B>,
    k3: Seq<u8>,
    f3: spec_fn(JsonVal) -> Option<C>,
) -> Option<(A, B, C)> {
    match v {
        JsonVal::Obj(entries) => match scan3(entries, k1, f1, k2, f2, k3, f3) {
            Some((Some(a), Some(b), Some(c))) => Some((a, b, c)),
            _ => None,
        },
        _ => None,
    }
}

/// An object document of one entry.
pub open spec fn obj1_val(k: Seq<u8>, v: JsonVal) -> JsonVal {
    JsonVal::Obj(seq![(k, v)])
}

/// An object document of two entries, in order.
pub open spec fn obj2_val(k1: Seq<u8>, v1: JsonVal, k2: Seq<u8>, v2: JsonVal) -> JsonVal {
    JsonVal::Obj(seq![(k1, v1), (k2, v2)])
}

/// An object document of three entries, in order.
pub open spec fn obj3_val(
    k1: Seq<u8>,
    v1: JsonVal,
    k2: Seq<u8>,
    v2: JsonVal,
    k3: Seq<u8>,
    v3: JsonVal,
) -> JsonVal {
    JsonVal::Obj(seq![(k1, v1), (k2, v2), (k3, v3)])
}

/// Builds a one-entry object node.
fn obj1_node(k: Vec<u8>, v: JsonNode) -> (n: JsonNode)
    ensures
        n@ == obj1_val(k@, v@),
{
    let ghost kv = k@;
    let ghost vv = v@;
    let mut entries: Vec<(Vec<u8>, JsonNode)> = Vec::new();
    entries.push((k, v));
    proof {
        crate::encode::lemma_entry_nodes_view_index(entries@);
        assert(entry_nodes_view(entries@) =~= seq![(kv, vv)]);
    }
    JsonNode::Obj(entries)
}

/// Builds a two-entry object node.
fn obj2_node(k1: Vec<u8>, v1: JsonNode, k2: Vec<u8>, v2: JsonNode) -> (n: JsonNode)
    ensures
        n@ == obj2_val(k1@, v1@, k2@, v2@),
{
    let ghost s = seq![(k1@, v1@), (k2@, v2@)];
    let mut entries: Vec<(Vec<u8>, JsonNode)> = Vec::new();
    entries.push((k1, v1));
    entries.push((k2, v2));
    proof {
        crate::encode::lemma_entry_nodes_view_index(entries@);
        assert(entry_nodes_view(entries@) =~= s);
    }
    JsonNode::Obj(entries)
}

/// Builds a three-entry object node.
fn obj3_node(k1: Vec<u8>, v1: JsonNode, k2: Vec<u8>, v2: JsonNode, k3: Vec<u8>, v3: JsonNode) -> (n:
    JsonNode)
    ensures
        n@ == obj3_val(k1@, v1@, k2@, v2@, k3@, v3@),
{
    let ghost s = seq![(k1@, v1@), (k2@, v2@), (k3@, v3@)];
    let mut entries: Vec<(Vec<u8>, JsonNode)> = Vec::new();
    entries.push((k1, v1));
    entries.push((k2, v2));
    entries.push((k3, v3));
    proof {
        crate::encode::lemma_entry_nodes_view_index(entries@);
        assert(entry_nodes_view(entries@) =~= s);
    }
    JsonNode::Obj(entries)
}

// executable field extraction

/// Relies on std's `String::from_utf8`: it succeeds exactly on valid
/// UTF-8 input, and the returned string holds the characters those
/// bytes encode.
#[verifier::external_body]
fn string_from_utf8(bytes: Vec<u8>) -> (r: Option<String>)
    ensures
        r is Some <==> valid_utf8(bytes@),
        r is Some ==> r.unwrap()@ == decode_utf8(bytes@),
{
    match String::from_utf8(bytes) {
        Ok(s) => Some(s),
        Err(_) => None,
    }
}

/// Lifts a text into its document form.
fn string_node(s: &String) -> (n: JsonNode)
    ensures
        n@ == string_val(s@),
{
    JsonNode::Str(s.as_str().as_bytes_vec())
}

/// Reads a text field.
fn string_field(n: &JsonNode) -> (r: Option<String>)
    ensures
        match r {
            Some(s) => string_from_val(n@) == Some(s@),
            None => string_from_val(n@) is None,
        },
{
    match n {
        JsonNode::Str(b) => {
            let copy: Vec<u8> = b.clone();
            string_from_utf8(copy)
        }
        _ => None,
    }
}

/// Reads a signed 32-bit field.
fn i32_field(n: &JsonNode) -> (r: Option<i32>)
    ensures
        r == i32_from_val(n@),
{
    match n {
        JsonNode::UInt(x) => if *x <= 2147483647u64 {
            Some(*x as i32)
        } else {
            None
        },
        JsonNode::Int(x) => if *x >= -2147483648i64 {
            Some(*x as i32)
        } else {
            None
        },
        _ => None,
    }
}

/// Reads a fare field into hundredths.
fn cents_field(n: &JsonNode) -> (r: Option<u32>)
    ensures
        r == cents_from_val(n@),
{
    match n {
        JsonNode::UInt(x) => {
            if *x <= 42949672u64 {
                Some((*x * 100) as u32)
            } else {
                None
            }
        }
        JsonNode::Dec(d) => {
            if !(!d.neg || d.mantissa == 0) || d.exp10 < -2 {
                return None;
            }
            if d.mantissa == 0 {
                proof {
                    assert(dec_cents(*d) == 0) by {
                        assert(0 * crate::encode::pow10((d.exp10 + 2) as nat) == 0)
                            by (nonlinear_arith);
                    }
                }
                return Some(0);
            }
            let e: u32 = ((d.exp10 as i64) + 2) as u32;
            let mut c: u64 = d.mantissa;
            let mut k: u32 = 0;
            if c > 4294967295u64 {
                proof {
                    lemma_scale_up(d.mantissa as nat, 0, (d.exp10 + 2) as nat);
                    assert(crate::encode::pow10(0) == 1);
                    assert(d.mantissa * 1 == d.mantissa) by (nonlinear_arith);
                    assert(dec_cents(*d) > u32::MAX);
                    assert(cents_from_val(n@) is None);
                }
                return None;
            }
            while k < e
                invariant
                    k <= e,
                    e == d.exp10 + 2,
                    d.mantissa >= 1,
                    n@ == JsonVal::Dec(*d),
                    !d.neg,
                    c as nat == d.mantissa * crate::encode::pow10(k as nat),
                    c <= 4294967295u64,
                decreases e - k,
            {
                proof {
                    assert(crate::encode::pow10(k as nat + 1) == 10 * crate::encode::pow10(
                        k as nat,
                    ));
                    assert(d.mantissa * (10 * crate::encode::pow10(k as nat)) == 10 * (d.mantissa
                        * crate::encode::pow10(k as nat))) by (nonlinear_arith);
                }
                c = c * 10;
                k = k + 1;
                if c > 4294967295u64 {
                    proof {
                        lemma_scale_up(d.mantissa as nat, k as nat, (d.exp10 + 2) as nat);
                        assert(dec_cents(*d) > u32::MAX);
                        assert(cents_from_val(n@) is None);
                    }
                    return None;
                }
            }
            Some(c as u32)
        }
        _ => None,
    }
}

/// Scaling a positive product further never shrinks it.
proof fn lemma_scale_up(m: nat, k: nat, e: nat)
    requires
        k <= e,
    ensures
        m * crate::encode::pow10(k) <= m * crate::encode::pow10(e),
{
    crate::encode::lemma_pow10_mono(k, e);
    assert(m * crate::encode::pow10(k) <= m * crate::encode::pow10(e)) by (nonlinear_arith)
        requires
            crate::encode::pow10(k) <= crate::encode::pow10(e),
    ;
}

/// Reads an id-list field.
fn u32_arr_field(n: &JsonNode) -> (r: Option<Vec<u32>>)
    ensures
        match r {
            Some(xs) => u32_arr_from_val(n@) == Some(xs@),
            None => u32_arr_from_val(n@) is None,
        },
{
    match n {
        JsonNode::Arr(items) => {
            proof {
                crate::encode::lemma_nodes_view_index(items@);
                assert(n@ == JsonVal::Arr(nodes_view(items@)));
            }
            let len: usize = items.len();
            let mut out: Vec<u32> = Vec::new();
            let mut i: usize = 0;
            while i < len
                invariant
                    i <= len,
                    len == items@.len(),
                    n@ == JsonVal::Arr(nodes_view(items@)),
                    nodes_view(items@).len() == len,
                    forall|k: int|
                        0 <= k < len ==> #[trigger] nodes_view(items@)[k] == crate::json::node_view(
                            items@[k],
                        ),
                    u32s_from_items(nodes_view(items@).take(i as int)) == Some(out@),
                decreases len - i,
            {
                proof {
                    assert(nodes_view(items@).take(i + 1).drop_last() =~= nodes_view(
                        items@,
                    ).take(i as int));
                    assert(nodes_view(items@).take(i + 1).last() == nodes_view(items@)[i as int]);
                }
                match &items[i] {
                    JsonNode::UInt(x) => {
                        if *x <= 4294967295u64 {
                            out.push(*x as u32);
                        } else {
                            proof {
                                lemma_u32s_from_items_none(nodes_view(items@), i + 1);
                            }
                            return None;
                        }
                    }
                    _ => {
                        proof {
                            lemma_u32s_from_items_none(nodes_view(items@), i + 1);
                        }
                        return None;
                    }
                }
                i = i + 1;
            }
            proof {
                assert(nodes_view(items@).take(len as int) =~= nodes_view(items@));
            }
            Some(out)
        }
        _ => None,
    }
}

/// Once a prefix of the element list fails, the whole list fails.
proof fn lemma_u32s_from_items_none(items: Seq<JsonVal>, k: int)
    requires
        0 <= k <= items.len(),
        u32s_from_items(items.take(k)) is None,
    ensures
        u32s_from_items(items) is None,
    decreases items.len() - k,
{
    if k == items.len() {
        assert(items.take(k) =~= items);
    } else {
        assert(items.take(k + 1).drop_last() =~= items.take(k));
        lemma_u32s_from_items_none(items, k + 1);
    }
}

// the field extractors as named spec values, so that contracts and
// loop invariants speak of one and the same function

pub open spec fn f_u32() -> spec_fn(JsonVal) -> Option<u32> {
    |v: JsonVal| crate::envelope::u32_from_val(v)
}

pub open spec fn f_string() -> spec_fn(JsonVal) -> Option<Seq<char>> {
    |v: JsonVal| string_from_val(v)
}

pub open spec fn f_i32() -> spec_fn(JsonVal) -> Option<i32> {
    |v: JsonVal| i32_from_val(v)
}

pub open spec fn f_cents() -> spec_fn(JsonVal) -> Option<u32> {
    |v: JsonVal| cents_from_val(v)
}

pub open spec fn f_u32_arr() -> spec_fn(JsonVal) -> Option<Seq<u32>> {
    |v: JsonVal| u32_arr_from_val(v)
}

pub open spec fn opt_str_view(o: Option<String>) -> Option<Seq<char>> {
    match o {
        Some(s) => Some(s@),
        None => None,
    }
}

pub open spec fn opt_u32s_view(o: Option<Vec<u32>>) -> Option<Seq<u32>> {
    match o {
        Some(v) => Some(v@),
        None => None,
    }
}

/// Reads an object of one required unsigned field.
fn obj1_scan_u32(n: &JsonNode, k: &Vec<u8>) -> (r: Result<u32, JsonError>)
    ensures
        match r {
            Ok(x) => obj1_from_val(n@, k@, f_u32()) == Some(x),
            Err(_) => obj1_from_val(n@, k@, f_u32()) is None,
        },
{
    match n {
        JsonNode::Obj(entries) => {
            proof {
                crate::encode::lemma_entry_nodes_view_index(entries@);
                assert(n@ == JsonVal::Obj(entry_nodes_view(entries@)));
            }
            let len: usize = entries.len();
            let mut ok: bool = true;
            let mut a: Option<u32> = None;
            let mut i: usize = 0;
            while i < len
                invariant
                    i <= len,
                    len == entries@.len(),
                    entry_nodes_view(entries@).len() == len,
                    forall|j: int|
                        0 <= j < len ==> #[trigger] entry_nodes_view(entries@)[j] == (
                            entries@[j].0@,
                            crate::json::node_view(entries@[j].1),
                        ),
                    ok ==> scan1(entry_nodes_view(entries@).take(i as int), k@, f_u32()) == Some(
                        a,
                    ),
                    !ok ==> scan1(entry_nodes_view(entries@).take(i as int), k@, f_u32()) is None,
                decreases len - i,
            {
                proof {
                    assert(entry_nodes_view(entries@).take(i + 1).drop_last() =~= entry_nodes_view(
                        entries@,
                    ).take(i as int));
                    assert(entry_nodes_view(entries@).take(i + 1).last() == entry_nodes_view(
                        entries@,
                    )[i as int]);
                }
                if ok {
                    let e = &entries[i];
                    if bytes_eq(&e.0, k) {
                        match crate::envelope::u32_field(&e.1) {
                            Some(x) => {
                                a = Some(x);
                            }
                            None => {
                                ok = false;
                            }
                        }
                    }
                }
                i = i + 1;
            }
            proof {
                assert(entry_nodes_view(entries@).take(len as int) =~= entry_nodes_view(entries@));
            }
            if ok {
                match a {
                    Some(x) => Ok(x),
                    None => Err(JsonError),
                }
            } else {
                Err(JsonError)
            }
        }
        _ => Err(JsonError),
    }
}

/// Reads an object of two required unsigned fields.
fn obj2_scan_u32(n: &JsonNode, k1: &Vec<u8>, k2: &Vec<u8>) -> (r: Result<(u32, u32), JsonError>)
    ensures
        match r {
            Ok(p) => obj2_from_val(n@, k1@, f_u32(), k2@, f_u32()) == Some(p),
            Err(_) => obj2_from_val(n@, k1@, f_u32(), k2@, f_u32()) is None,
        },
{
    match n {
        JsonNode::Obj(entries) => {
            proof {
                crate::encode::lemma_entry_nodes_view_index(entries@);
                assert(n@ == JsonVal::Obj(entry_nodes_view(entries@)));
            }
            let len: usize = entries.len();
            let mut ok: bool = true;
            let mut a: Option<u32> = None;
            let mut b: Option<u32> = None;
            let mut i: usize = 0;
            while i < len
                invariant
                    i <= len,
                    len == entries@.len(),
                    entry_nodes_view(entries@).len() == len,
                    forall|j: int|
                        0 <= j < len ==> #[trigger] entry_nodes_view(entries@)[j] == (
                            entries@[j].0@,
                            crate::json::node_view(entries@[j].1),
                        ),
                    ok ==> scan2(
                        entry_nodes_view(entries@).take(i as int),
                        k1@,
                        f_u32(),
                        k2@,
                        f_u32(),
                    ) == Some((a, b)),
                    !ok ==> scan2(
                        entry_nodes_view(entries@).take(i as int),
                        k1@,
                        f_u32(),
                        k2@,
                        f_u32(),
                    ) is None,
                decreases len - i,
            {
                proof {
                    assert(entry_nodes_view(entries@).take(i + 1).drop_last() =~= entry_nodes_view(
                        entries@,
                    ).take(i as int));
                    assert(entry_nodes_view(entries@).take(i + 1).last() == entry_nodes_view(
                        entries@,
                    )[i as int]);
                }
                if ok {
                    let e = &entries[i];
                    if bytes_eq(&e.0, k1) {
                        match crate::envelope::u32_field(&e.1) {
                            Some(x) => {
                                a = Some(x);
                            }
                            None => {
                                ok = false;
                            }
                        }
                    } else if bytes_eq(&e.0, k2) {
                        match crate::envelope::u32_field(&e.1) {
                            Some(x) => {
                                b = Some(x);
                            }
                            None => {
                                ok = false;
                            }
                        }
                    }
                }
                i = i + 1;
            }
            proof {
                assert(entry_nodes_view(entries@).take(len as int) =~= entry_nodes_view(entries@));
            }
            if ok {
                match (a, b) {
                    (Some(x), Some(y)) => Ok((x, y)),
                    _ => Err(JsonError),
                }
            } else {
                Err(JsonError)
            }
        }
        _ => Err(JsonError),
    }
}

/// Reads an object of one required text field.
fn obj1_scan_string(n: &JsonNode, k: &Vec<u8>) -> (r: Result<String, JsonError>)
    ensures
        match r {
            Ok(s) => obj1_from_val(n@, k@, f_string()) == Some(s@),
            Err(_) => obj1_from_val(n@, k@, f_string()) is None,
        },
{
    match n {
        JsonNode::Obj(entries) => {
            proof {
                crate::encode::lemma_entry_nodes_view_index(entries@);
                assert(n@ == JsonVal::Obj(entry_nodes_view(entries@)));
            }
            let len: usize = entries.len();
            let mut ok: bool = true;
            let mut a: Option<String> = None;
            let mut i: usize = 0;
            while i < len
                invariant
                    i <= len,
                    len == entries@.len(),
                    entry_nodes_view(entries@).len() == len,
                    forall|j: int|
                        0 <= j < len ==> #[trigger] entry_nodes_view(entries@)[j] == (
                            entries@[j].0@,
                            crate::json::node_view(entries@[j].1),
                        ),
                    ok ==> scan1(entry_nodes_view(entries@).take(i as int), k@, f_string())
                        == Some(opt_str_view(a)),
                    !ok ==> scan1(
                        entry_nodes_view(entries@).take(i as int),
                        k@,
                        f_string(),
                    ) is None,
                decreases len - i,
            {
                proof {
                    assert(entry_nodes_view(entries@).take(i + 1).drop_last() =~= entry_nodes_view(
                        entries@,
                    ).take(i as int));
                    assert(entry_nodes_view(entries@).take(i + 1).last() == entry_nodes_view(
                        entries@,
                    )[i as int]);
                }
                if ok {
                    let e = &entries[i];
                    if bytes_eq(&e.0, k) {
                        match string_field(&e.1) {
                            Some(s) => {
                                a = Some(s);
                            }
                            None => {
                                ok = false;
                            }
                        }
                    }
                }
                i = i + 1;
            }
            proof {
                assert(entry_nodes_view(entries@).take(len as int) =~= entry_nodes_view(entries@));
            }
            if ok {
                match a {
                    Some(s) => Ok(s),
                    None => Err(JsonError),
                }
            } else {
                Err(JsonError)
            }
        }
        _ => Err(JsonError),
    }
}

/// Reads an object of two required text fields.
fn obj2_scan_string(n: &JsonNode, k1: &Vec<u8>, k2: &Vec<u8>) -> (r: Result<
    (String, String),
    JsonError,
>)
    ensures
        match r {
            Ok(p) => obj2_from_val(n@, k1@, f_string(), k2@, f_string()) == Some(
                (p.0@, p.1@),
            ),
            Err(_) => obj2_from_val(n@, k1@, f_string(), k2@, f_string()) is None,
        },
{
    match n {
        JsonNode::Obj(entries) => {
            proof {
                crate::encode::lemma_entry_nodes_view_index(entries@);
                assert(n@ == JsonVal::Obj(entry_nodes_view(entries@)));
            }
            let len: usize = entries.len();
            let mut ok: bool = true;
            let mut a: Option<String> = None;
            let mut b: Option<String> = None;
            let mut i: usize = 0;
            while i < len
                invariant
                    i <= len,
                    len == entries@.len(),
                    entry_nodes_view(entries@).len() == len,
                    forall|j: int|
                        0 <= j < len ==> #[trigger] entry_nodes_view(entries@)[j] == (
                            entries@[j].0@,
                            crate::json::node_view(entries@[j].1),
                        ),
                    ok ==> scan2(
                        entry_nodes_view(entries@).take(i as int),
                        k1@,
                        f_string(),
                        k2@,
                        f_string(),
                    ) == Some((opt_str_view(a), opt_str_view(b))),
                    !ok ==> scan2(
                        entry_nodes_view(entries@).take(i as int),
                        k1@,
                        f_string(),
                        k2@,
                        f_string(),
                    ) is None,
                decreases len - i,
            {
                proof {
                    assert(entry_nodes_view(entries@).take(i + 1).drop_last() =~= entry_nodes_view(
                        entries@,
                    ).take(i as int));
                    assert(entry_nodes_view(entries@).take(i + 1).last() == entry_nodes_view(
                        entries@,
                    )[i as int]);
                }
                if ok {
                    let e = &entries[i];
                    if bytes_eq(&e.0, k1) {
                        match string_field(&e.1) {
                            Some(s) => {
                                a = Some(s);
                            }
                            None => {
                                ok = false;
                            }
                        }
                    } else if bytes_eq(&e.0, k2) {
                        match string_field(&e.1) {
                            Some(s) => {
                                b = Some(s);
                            }
                            None => {
                                ok = false;
                            }
                        }
                    }
                }
                i = i + 1;
            }
            proof {
                assert(entry_nodes_view(entries@).take(len as int) =~= entry_nodes_view(entries@));
            }
            if ok {
                match (a, b) {
                    (Some(x), Some(y)) => Ok((x, y)),
                    _ => Err(JsonError),
                }
            } else {
                Err(JsonError)
            }
        }
        _ => Err(JsonError),
    }
}

/// Reads an object of one required id-list field.
fn obj1_scan_u32_arr(n: &JsonNode, k: &Vec<u8>) -> (r: Result<Vec<u32>, JsonError>)
    ensures
        match r {
            Ok(xs) => obj1_from_val(n@, k@, f_u32_arr()) == Some(xs@),
            Err(_) => obj1_from_val(n@, k@, f_u32_arr()) is None,
        },
{
    match n {
        JsonNode::Obj(entries) => {
            proof {
                crate::encode::lemma_entry_nodes_view_index(entries@);
                assert(n@ == JsonVal::Obj(entry_nodes_view(entries@)));
            }
            let len: usize = entries.len();
            let mut ok: bool = true;
            let mut a: Option<Vec<u32>> = None;
            let mut i: usize = 0;
            while i < len
                invariant
                    i <= len,
                    len == entries@.len(),
                    entry_nodes_view(entries@).len() == len,
                    forall|j: int|
                        0 <= j < len ==> #[trigger] entry_nodes_view(entries@)[j] == (
                            entries@[j].0@,
                            crate::json::node_view(entries@[j].1),
                        ),
                    ok ==> scan1(entry_nodes_view(entries@).take(i as int), k@, f_u32_arr())
                        == Some(opt_u32s_view(a)),
                    !ok ==> scan1(
                        entry_nodes_view(entries@).take(i as int),
                        k@,
                        f_u32_arr(),
                    ) is None,
                decreases len - i,
            {
                proof {
                    assert(entry_nodes_view(entries@).take(i + 1).drop_last() =~= entry_nodes_view(
                        entries@,
                    ).take(i as int));
                    assert(entry_nodes_view(entries@).take(i + 1).last() == entry_nodes_view(
                        entries@,
                    )[i as int]);
                }
                if ok {
                    let e = &entries[i];
                    if bytes_eq(&e.0, k) {
                        match u32_arr_field(&e.1) {
                            Some(xs) => {
                                a = Some(xs);
                            }
                            None => {
                                ok = false;
                            }
                        }
                    }
                }
                i = i + 1;
            }
            proof {
                assert(entry_nodes_view(entries@).take(len as int) =~= entry_nodes_view(entries@));
            }
            if ok {
                match a {
                    Some(xs) => Ok(xs),
                    None => Err(JsonError),
                }
            } else {
                Err(JsonError)
            }
        }
        _ => Err(JsonError),
    }
}

/// Reads an object of the flight-details shape: departure time,
/// fare and seat count.
fn obj3_scan_flight_info(n: &JsonNode, k1: &Vec<u8>, k2: &Vec<u8>, k3: &Vec<u8>) -> (r: Result<
    (i32, u32, u32),
    JsonError,
>)
    ensures
        match r {
            Ok(p) => obj3_from_val(n@, k1@, f_i32(), k2@, f_cents(), k3@, f_u32()) == Some(p),
            Err(_) => obj3_from_val(n@, k1@, f_i32(), k2@, f_cents(), k3@, f_u32()) is None,
        },
{
    match n {
        JsonNode::Obj(entries) => {
            proof {
                crate::encode::lemma_entry_nodes_view_index(entries@);
                assert(n@ == JsonVal::Obj(entry_nodes_view(entries@)));
            }
            let len: usize = entries.len();
            let mut ok: bool = true;
            let mut a: Option<i32> = None;
            let mut b: Option<u32> = None;
            let mut c: Option<u32> = None;
            let mut i: usize = 0;
            while i < len
                invariant
                    i <= len,
                    len == entries@.len(),
                    entry_nodes_view(entries@).len() == len,
                    forall|j: int|
                        0 <= j < len ==> #[trigger] entry_nodes_view(entries@)[j] == (
                            entries@[j].0@,
                            crate::json::node_view(entries@[j].1),
                        ),
                    ok ==> scan3(
                        entry_nodes_view(entries@).take(i as int),
                        k1@,
                        f_i32(),
                        k2@,
                        f_cents(),
                        k3@,
                        f_u32(),
                    ) == Some((a, b, c)),
                    !ok ==> scan3(
                        entry_nodes_view(entries@).take(i as int),
                        k1@,
                        f_i32(),
                        k2@,
                        f_cents(),
                        k3@,
                        f_u32(),
                    ) is None,
                decreases len - i,
            {
                proof {
                    assert(entry_nodes_view(entries@).take(i + 1).drop_last() =~= entry_nodes_view(
                        entries@,
                    ).take(i as int));
                    assert(entry_nodes_view(entries@).take(i + 1).last() == entry_nodes_view(
                        entries@,
                    )[i as int]);
                }
                if ok {
                    let e = &entries[i];
                    if bytes_eq(&e.0, k1) {
                        match i32_field(&e.1) {
                            Some(x) => {
                                a = Some(x);
                            }
                            None => {
                                ok = false;
                            }
                        }
                    } else if bytes_eq(&e.0, k2) {
                        match cents_field(&e.1) {
                            Some(x) => {
                                b = Some(x);
                            }
                            None => {
                                ok = false;
                            }
                        }
                    } else if bytes_eq(&e.0, k3) {
                        match crate::envelope::u32_field(&e.1) {
                            Some(x) => {
                                c = Some(x);
                            }
                            None => {
                                ok = false;
                            }
                        }
                    }
                }
                i = i + 1;
            }
            proof {
                assert(entry_nodes_view(entries@).take(len as int) =~= entry_nodes_view(entries@));
            }
            if ok {
                match (a, b, c) {
                    (Some(x), Some(y), Some(z)) => Ok((x, y, z)),
                    _ => Err(JsonError),
                }
            } else {
                Err(JsonError)
            }
        }
        _ => Err(JsonError),
    }
}

/// Lifts an id list into its document form.
fn u32_arr_node(xs: &Vec<u32>) -> (n: JsonNode)
    ensures
        n@ == u32_arr_val(xs@),
{
    let len: usize = xs.len();
    let mut items: Vec<JsonNode> = Vec::new();
    let mut i: usize = 0;
    while i < len
        invariant
            i <= len,
            len == xs@.len(),
            items@.len() == i,
            forall|k: int| 0 <= k < i ==> items@[k] == JsonNode::UInt(xs@[k] as u64),
        decreases len - i,
    {
        items.push(JsonNode::UInt(xs[i] as u64));
        i = i + 1;
    }
    proof {
        crate::encode::lemma_nodes_view_index(items@);
        assert(nodes_view(items@) =~= Seq::new(xs@.len(), |k: int| JsonVal::UInt(xs@[k] as u64)));
    }
    JsonNode::Arr(items)
}

// the thirteen body types

/// Failure body: the error text of the failed call.
pub struct ServiceFailedResponse {
    pub error: String,
}

/// Spec document of a failure body.
pub open spec fn failed_body_val(error: Seq<char>) -> JsonVal {
    obj1_val(key_error(), string_val(error))
}

impl ServiceFailedResponse {
    pub fn to_json(&self) -> (n: JsonNode)
        ensures
            n@ == failed_body_val(self.error@),
    {
        obj1_node(key_error_vec(), string_node(&self.error))
    }

    pub fn from_json(n: &JsonNode) -> (r: Result<Self, JsonError>)
        ensures
            match r {
                Ok(b) => obj1_from_val(n@, key_error(), f_string()) == Some(b.error@),
                Err(_) => obj1_from_val(n@, key_error(), f_string()) is None,
            },
    {
        match obj1_scan_string(n, &key_error_vec()) {
            Ok(error) => Ok(ServiceFailedResponse { error }),
            Err(e) => Err(e),
        }
    }
}

/// Query request: where from and where to.
pub struct Service1RequestBody {
    pub source: String,
    pub destination: String,
}

/// Spec document of a query request.
pub open spec fn service1_request_val(source: Seq<char>, destination: Seq<char>) -> JsonVal {
    obj2_val(key_source(), string_val(source), key_destination(), string_val(destination))
}

impl Service1RequestBody {
    pub fn to_json(&self) -> (n: JsonNode)
        ensures
            n@ == service1_request_val(self.source@, self.destination@),
    {
        obj2_node(
            key_source_vec(),
            string_node(&self.source),
            key_destination_vec(),
            string_node(&self.destination),
        )
    }

    pub fn from_json(n: &JsonNode) -> (r: Result<Self, JsonError>)
        ensures
            match r {
                Ok(b) => obj2_from_val(n@, key_source(), f_string(), key_destination(), f_string())
                    == Some((b.source@, b.destination@)),
                Err(_) => obj2_from_val(
                    n@,
                    key_source(),
                    f_string(),
                    key_destination(),
                    f_string(),
                ) is None,
            },
    {
        match obj2_scan_string(n, &key_source_vec(), &key_destination_vec()) {
            Ok((source, destination)) => Ok(Service1RequestBody { source, destination }),
            Err(e) => Err(e),
        }
    }
}

/// Query success: the matching flight identifiers.
pub struct Service1ResponseBody {
    pub flight_ids: Vec<u32>,
}

/// Spec document of a query success body.
pub open spec fn service1_response_val(flight_ids: Seq<u32>) -> JsonVal {
    obj1_val(key_flight_ids(), u32_arr_val(flight_ids))
}

impl Service1ResponseBody {
    pub fn to_json(&self) -> (n: JsonNode)
        ensures
            n@ == service1_response_val(self.flight_ids@),
    {
        obj1_node(key_flight_ids_vec(), u32_arr_node(&self.flight_ids))
    }

    pub fn from_json(n: &JsonNode) -> (r: Result<Self, JsonError>)
        ensures
            match r {
                Ok(b) => obj1_from_val(n@, key_flight_ids(), f_u32_arr()) == Some(b.flight_ids@),
                Err(_) => obj1_from_val(n@, key_flight_ids(), f_u32_arr()) is None,
            },
    {
        match obj1_scan_u32_arr(n, &key_flight_ids_vec()) {
            Ok(flight_ids) => Ok(Service1ResponseBody { flight_ids }),
            Err(e) => Err(e),
        }
    }
}

/// Details request: one flight identifier.
pub struct Service2RequestBody {
    pub flight_id: u32,
}

/// Spec document of a one-identifier body.
pub open spec fn flight_id_body_val(flight_id: u32) -> JsonVal {
    obj1_val(key_flight_id(), JsonVal::UInt(flight_id as u64))
}

impl Service2RequestBody {
    pub fn to_json(&self) -> (n: JsonNode)
        ensures
            n@ == flight_id_body_val(self.flight_id),
    {
        obj1_node(key_flight_id_vec(), JsonNode::UInt(self.flight_id as u64))
    }

    pub fn from_json(n: &JsonNode) -> (r: Result<Self, JsonError>)
        ensures
            match r {
                Ok(b) => obj1_from_val(n@, key_flight_id(), f_u32()) == Some(b.flight_id),
                Err(_) => obj1_from_val(n@, key_flight_id(), f_u32()) is None,
            },
    {
        match obj1_scan_u32(n, &key_flight_id_vec()) {
            Ok(flight_id) => Ok(Service2RequestBody { flight_id }),
            Err(e) => Err(e),
        }
    }
}

/// Details success: departure time, fare in hundredths, free seats.
pub struct Service2ResponseBody {
    pub departure_time: i32,
    pub airfare_cents: u32,
    pub seat_avail: u32,
}

/// Spec document of a details success body.
pub open spec fn service2_response_val(departure_time: i32, airfare_cents: u32, seat_avail: u32)
    -> JsonVal {
    obj3_val(
        key_departure_time(),
        i32_val(departure_time),
        key_airfare(),
        cents_val(airfare_cents),
        key_seat_avail(),
        JsonVal::UInt(seat_avail as u64),
    )
}

impl Service2ResponseBody {
    pub fn to_json(&self) -> (n: JsonNode)
        ensures
            n@ == service2_response_val(self.departure_time, self.airfare_cents, self.seat_avail),
    {
        let dep: JsonNode = if self.departure_time >= 0 {
            JsonNode::UInt(self.departure_time as u64)
        } else {
            JsonNode::Int(self.departure_time as i64)
        };
        obj3_node(
            key_departure_time_vec(),
            dep,
            key_airfare_vec(),
            JsonNode::Dec(DecNumber { neg: false, mantissa: self.airfare_cents as u64, exp10: -2i32 }),
            key_seat_avail_vec(),
            JsonNode::UInt(self.seat_avail as u64),
        )
    }

    pub fn from_json(n: &JsonNode) -> (r: Result<Self, JsonError>)
        ensures
            match r {
                Ok(b) => obj3_from_val(
                    n@,
                    key_departure_time(),
                    f_i32(),
                    key_airfare(),
                    f_cents(),
                    key_seat_avail(),
                    f_u32(),
                ) == Some((b.departure_time, b.airfare_cents, b.seat_avail)),
                Err(_) => obj3_from_val(
                    n@,
                    key_departure_time(),
                    f_i32(),
                    key_airfare(),
                    f_cents(),
                    key_seat_avail(),
                    f_u32(),
                ) is None,
            },
    {
        match obj3_scan_flight_info(
            n,
            &key_departure_time_vec(),
            &key_airfare_vec(),
            &key_seat_avail_vec(),
        ) {
            Ok((departure_time, airfare_cents, seat_avail)) => Ok(
                Service2ResponseBody { departure_time, airfare_cents, seat_avail },
            ),
            Err(e) => Err(e),
        }
    }
}

/// Reservation request: flight and seat count.
pub struct Service3RequestBody {
    pub flight_id: u32,
    pub num_seat: u32,
}

/// Spec document of a reservation request.
pub open spec fn service3_request_val(flight_id: u32, num_seat: u32) -> JsonVal {
    obj2_val(
        key_flight_id(),
        JsonVal::UInt(flight_id as u64),
        key_num_seat(),
        JsonVal::UInt(num_seat as u64),
    )
}

impl Service3RequestBody {
    pub fn to_json(&self) -> (n: JsonNode)
        ensures
            n@ == service3_request_val(self.flight_id, self.num_seat),
    {
        obj2_node(
            key_flight_id_vec(),
            JsonNode::UInt(self.flight_id as u64),
            key_num_seat_vec(),
            JsonNode::UInt(self.num_seat as u64),
        )
    }

    pub fn from_json(n: &JsonNode) -> (r: Result<Self, JsonError>)
        ensures
            match r {
                Ok(b) => obj2_from_val(n@, key_flight_id(), f_u32(), key_num_seat(), f_u32())
                    == Some((b.flight_id, b.num_seat)),
                Err(_) => obj2_from_val(
                    n@,
                    key_flight_id(),
                    f_u32(),
                    key_num_seat(),
                    f_u32(),
                ) is None,
            },
    {
        match obj2_scan_u32(n, &key_flight_id_vec(), &key_num_seat_vec()) {
            Ok((flight_id, num_seat)) => Ok(Service3RequestBody { flight_id, num_seat }),
            Err(e) => Err(e),
        }
    }
}

/// Acknowledgement body: a human-readable message.
pub struct Service3ResponseBody {
    pub message: String,
}

/// Spec document of a message body.
pub open spec fn message_body_val(message: Seq<char>) -> JsonVal {
    obj1_val(key_message(), string_val(message))
}

impl Service3ResponseBody {
    pub fn to_json(&self) -> (n: JsonNode)
        ensures
            n@ == message_body_val(self.message@),
    {
        obj1_node(key_message_vec(), string_node(&self.message))
    }

    pub fn from_json(n: &JsonNode) -> (r: Result<Self, JsonError>)
        ensures
            match r {
                Ok(b) => obj1_from_val(n@, key_message(), f_string()) == Some(b.message@),
                Err(_) => obj1_from_val(n@, key_message(), f_string()) is None,
            },
    {
        match obj1_scan_string(n, &key_message_vec()) {
            Ok(message) => Ok(Service3ResponseBody { message }),
            Err(e) => Err(e),
        }
    }
}

/// Monitor request: flight and window length in seconds.
pub struct Service4RequestBody {
    pub flight_id: u32,
    pub monitor_interval: u32,
}

/// Spec document of a monitor request.
pub open spec fn service4_request_val(flight_id: u32, monitor_interval: u32) -> JsonVal {
    obj2_val(
        key_flight_id(),
        JsonVal::UInt(flight_id as u64),
        key_monitor_interval(),
        JsonVal::UInt(monitor_interval as u64),
    )
}

impl Service4RequestBody {
    pub fn to_json(&self) -> (n: JsonNode)
        ensures
            n@ == service4_request_val(self.flight_id, self.monitor_interval),
    {
        obj2_node(
            key_flight_id_vec(),
            JsonNode::UInt(self.flight_id as u64),
            key_monitor_interval_vec(),
            JsonNode::UInt(self.monitor_interval as u64),
        )
    }

    pub fn from_json(n: &JsonNode) -> (r: Result<Self, JsonError>)
        ensures
            match r {
                Ok(b) => obj2_from_val(
                    n@,
                    key_flight_id(),
                    f_u32(),
                    key_monitor_interval(),
                    f_u32(),
                ) == Some((b.flight_id, b.monitor_interval)),
                Err(_) => obj2_from_val(
                    n@,
                    key_flight_id(),
                    f_u32(),
                    key_monitor_interval(),
                    f_u32(),
                ) is None,
            },
    {
        match obj2_scan_u32(n, &key_flight_id_vec(), &key_monitor_interval_vec()) {
            Ok((flight_id, monitor_interval)) => Ok(
                Service4RequestBody { flight_id, monitor_interval },
            ),
            Err(e) => Err(e),
        }
    }
}

/// Monitor acknowledgement body.
pub struct Service4ResponseBody {
    pub message: String,
}

impl Service4ResponseBody {
    pub fn to_json(&self) -> (n: JsonNode)
        ensures
            n@ == message_body_val(self.message@),
    {
        obj1_node(key_message_vec(), string_node(&self.message))
    }

    pub fn from_json(n: &JsonNode) -> (r: Result<Self, JsonError>)
        ensures
            match r {
                Ok(b) => obj1_from_val(n@, key_message(), f_string()) == Some(b.message@),
                Err(_) => obj1_from_val(n@, key_message(), f_string()) is None,
            },
    {
        match obj1_scan_string(n, &key_message_vec()) {
            Ok(message) => Ok(Service4ResponseBody { message }),
            Err(e) => Err(e),
        }
    }
}

/// Monitor notification body: the fresh seat count.
pub struct Service4MonitorResponseBody {
    pub seat_avail: u32,
}

/// Spec document of a monitor notification body.
pub open spec fn monitor_update_val(seat_avail: u32) -> JsonVal {
    obj1_val(key_seat_avail(), JsonVal::UInt(seat_avail as u64))
}

impl Service4MonitorResponseBody {
    pub fn to_json(&self) -> (n: JsonNode)
        ensures
            n@ == monitor_update_val(self.seat_avail),
    {
        obj1_node(key_seat_avail_vec(), JsonNode::UInt(self.seat_avail as u64))
    }

    pub fn from_json(n: &JsonNode) -> (r: Result<Self, JsonError>)
        ensures
            match r {
                Ok(b) => obj1_from_val(n@, key_seat_avail(), f_u32()) == Some(b.seat_avail),
                Err(_) => obj1_from_val(n@, key_seat_avail(), f_u32()) is None,
            },
    {
        match obj1_scan_u32(n, &key_seat_avail_vec()) {
            Ok(seat_avail) => Ok(Service4MonitorResponseBody { seat_avail }),
            Err(e) => Err(e),
        }
    }
}

/// Cancellation request: one flight identifier.
pub struct Service5RequestBody {
    pub flight_id: u32,
}

impl Service5RequestBody {
    pub fn to_json(&self) -> (n: JsonNode)
        ensures
            n@ == flight_id_body_val(self.flight_id),
    {
        obj1_node(key_flight_id_vec(), JsonNode::UInt(self.flight_id as u64))
    }

    pub fn from_json(n: &JsonNode) -> (r: Result<Self, JsonError>)
        ensures
            match r {
                Ok(b) => obj1_from_val(n@, key_flight_id(), f_u32()) == Some(b.flight_id),
                Err(_) => obj1_from_val(n@, key_flight_id(), f_u32()) is None,
            },
    {
        match obj1_scan_u32(n, &key_flight_id_vec()) {
            Ok(flight_id) => Ok(Service5RequestBody { flight_id }),
            Err(e) => Err(e),
        }
    }
}

/// Cancellation acknowledgement body.
pub struct Service5ResponseBody {
    pub message: String,
}

impl Service5ResponseBody {
    pub fn to_json(&self) -> (n: JsonNode)
        ensures
            n@ == message_body_val(self.message@),
    {
        obj1_node(key_message_vec(), string_node(&self.message))
    }

    pub fn from_json(n: &JsonNode) -> (r: Result<Self, JsonError>)
        ensures
            match r {
                Ok(b) => obj1_from_val(n@, key_message(), f_string()) == Some(b.message@),
                Err(_) => obj1_from_val(n@, key_message(), f_string()) is None,
            },
    {
        match obj1_scan_string(n, &key_message_vec()) {
            Ok(message) => Ok(Service5ResponseBody { message }),
            Err(e) => Err(e),
        }
    }
}

/// Luggage request: flight and weight to add.
pub struct Service6RequestBody {
    pub flight_id: u32,
    pub amount_in_kg: u32,
}

/// Spec document of a luggage request.
pub open spec fn service6_request_val(flight_id: u32, amount_in_kg: u32) -> JsonVal {
    obj2_val(
        key_flight_id(),
        JsonVal::UInt(flight_id as u64),
        key_amount_in_kg(),
        JsonVal::UInt(amount_in_kg as u64),
    )
}

impl Service6RequestBody {
    pub fn to_json(&self) -> (n: JsonNode)
        ensures
            n@ == service6_request_val(self.flight_id, self.amount_in_kg),
    {
        obj2_node(
            key_flight_id_vec(),
            JsonNode::UInt(self.flight_id as u64),
            key_amount_in_kg_vec(),
            JsonNode::UInt(self.amount_in_kg as u64),
        )
    }

    pub fn from_json(n: &JsonNode) -> (r: Result<Self, JsonError>)
        ensures
            match r {
                Ok(b) => obj2_from_val(n@, key_flight_id(), f_u32(), key_amount_in_kg(), f_u32())
                    == Some((b.flight_id, b.amount_in_kg)),
                Err(_) => obj2_from_val(
                    n@,
                    key_flight_id(),
                    f_u32(),
                    key_amount_in_kg(),
                    f_u32(),
                ) is None,
            },
    {
        match obj2_scan_u32(n, &key_flight_id_vec(), &key_amount_in_kg_vec()) {
            Ok((flight_id, amount_in_kg)) => Ok(Service6RequestBody { flight_id, amount_in_kg }),
            Err(e) => Err(e),
        }
    }
}

/// Luggage acknowledgement body.
pub struct Service6ResponseBody {
    pub message: String,
}

impl Service6ResponseBody {
    pub fn to_json(&self) -> (n: JsonNode)
        ensures
            n@ == message_body_val(self.message@),
    {
        obj1_node(key_message_vec(), string_node(&self.message))
    }

    pub fn from_json(n: &JsonNode) -> (r: Result<Self, JsonError>)
        ensures
            match r {
                Ok(b) => obj1_from_val(n@, key_message(), f_string()) == Some(b.message@),
                Err(_) => obj1_from_val(n@, key_message(), f_string()) is None,
            },
    {
        match obj1_scan_string(n, &key_message_vec()) {
            Ok(message) => Ok(Service6ResponseBody { message }),
            Err(e) => Err(e),
        }
    }
}

} // verus!
