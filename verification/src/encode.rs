//! JSON emission.
//!
//! [`enc_val`] is the specification: the exact byte sequence a document
//! renders to. [`to_json_bytes`] produces it executably without
//! recursion, driving an explicit layer stack as the wire format's
//! nesting demands; [`escape_str`] is the string-escaping routine shared
//! by values and object keys.
//!
//! Two deliberate deviations from ordinary JSON emitters, kept for wire
//! compatibility: decimals render with exactly two fraction digits, and
//! strings are escaped through a fixed byte table (seven short escapes,
//! `\u00XX` for the remaining control range).

use vstd::prelude::*;

use crate::json::{
    entries_size, entry_nodes_view, nodes_view, node_view, val_size, vals_size, DecNumber,
    JsonNode, JsonVal,
};

verus! {

broadcast use vstd::std_specs::vec::group_vec_axioms, vstd::seq::group_seq_axioms;

/// Ten to the `n`.
pub open spec fn pow10(n: nat) -> nat
    decreases n,
{
    if n == 0 {
        1
    } else {
        10 * pow10((n - 1) as nat)
    }
}

/// Decimal digits of `n`, most significant first, no sign, no padding.
pub open spec fn dec_digits(n: nat) -> Seq<u8>
    decreases n,
{
    if n < 10 {
        seq![(0x30 + n) as u8]
    } else {
        dec_digits(n / 10).push((0x30 + n % 10) as u8)
    }
}

/// Lower-case hexadecimal digit for `n < 16`.
pub open spec fn hexdig(n: nat) -> u8 {
    if n < 10 {
        (0x30 + n) as u8
    } else {
        (0x57 + n) as u8
    }
}

/// Rendering of one string byte: identity, a two-byte short escape, or
/// a six-byte `\u00XX` escape for the rest of the control range.
pub open spec fn esc_byte(b: u8) -> Seq<u8> {
    if b == 0x08 {
        seq![0x5c, 0x62]
    } else if b == 0x09 {
        seq![0x5c, 0x74]
    } else if b == 0x0a {
        seq![0x5c, 0x6e]
    } else if b == 0x0c {
        seq![0x5c, 0x66]
    } else if b == 0x0d {
        seq![0x5c, 0x72]
    } else if b == 0x22 {
        seq![0x5c, 0x22]
    } else if b == 0x5c {
        seq![0x5c, 0x5c]
    } else if b < 0x20 {
        seq![0x5c, 0x75, 0x30, 0x30, hexdig((b >> 4) as nat), hexdig((b & 0x0f) as nat)]
    } else {
        seq![b]
    }
}

/// Escaped form of a string body (without the surrounding quotes).
pub open spec fn escape_seq(s: Seq<u8>) -> Seq<u8>
    decreases s,
{
    if s.len() == 0 {
        Seq::empty()
    } else {
        escape_seq(s.drop_last()) + esc_byte(s.last())
    }
}

/// A quoted, escaped string.
pub open spec fn enc_string(s: Seq<u8>) -> Seq<u8> {
    seq![0x22u8] + escape_seq(s) + seq![0x22u8]
}

/// The hundredths count a decimal renders as: `mantissa * 10^(exp10+2)`.
pub open spec fn dec_cents(d: DecNumber) -> nat {
    if d.exp10 >= -2 {
        (d.mantissa * pow10((d.exp10 + 2) as nat)) as nat
    } else {
        0
    }
}

/// A decimal the emitter accepts: two-decimal representable, with the
/// hundredths count fitting an unsigned 64-bit word.
pub open spec fn dec_encodable(d: DecNumber) -> bool {
    d.exp10 >= -2 && dec_cents(d) <= u64::MAX
}

/// Rendering of a decimal: sign, integer part, and exactly two
/// fraction digits.
pub open spec fn enc_dec(d: DecNumber) -> Seq<u8> {
    let cents = dec_cents(d);
    let sign: Seq<u8> = if d.neg {
        seq![0x2du8]
    } else {
        Seq::empty()
    };
    sign + dec_digits(cents / 100) + seq![
        0x2eu8,
        (0x30 + (cents / 10) % 10) as u8,
        (0x30 + cents % 10) as u8,
    ]
}

/// Magnitude of a strictly negative 64-bit integer.
pub open spec fn neg_mag(i: i64) -> nat {
    (-(i as int)) as nat
}

/// The byte rendering of a document. No whitespace is ever emitted.
pub open spec fn enc_val(v: JsonVal) -> Seq<u8>
    decreases v,
{
    match v {
        JsonVal::Null => seq![0x6eu8, 0x75, 0x6c, 0x6c],
        JsonVal::Bool(b) => if b {
            seq![0x74u8, 0x72, 0x75, 0x65]
        } else {
            seq![0x66u8, 0x61, 0x6c, 0x73, 0x65]
        },
        JsonVal::Str(s) => enc_string(s),
        JsonVal::UInt(n) => dec_digits(n as nat),
        JsonVal::Int(i) => seq![0x2du8] + dec_digits(neg_mag(i)),
        JsonVal::Dec(d) => enc_dec(d),
        JsonVal::Arr(items) => seq![0x5bu8] + enc_items(items) + seq![0x5du8],
        JsonVal::Obj(entries) => seq![0x7bu8] + enc_entries(entries) + seq![0x7du8],
    }
}

/// Comma-separated renderings of array elements.
pub open spec fn enc_items(items: Seq<JsonVal>) -> Seq<u8>
    decreases items,
{
    if items.len() == 0 {
        Seq::empty()
    } else if items.len() == 1 {
        enc_val(items.last())
    } else {
        enc_items(items.drop_last()) + seq![0x2cu8] + enc_val(items.last())
    }
}

/// Comma-separated renderings of object entries (`"key":value`).
pub open spec fn enc_entries(entries: Seq<(Seq<u8>, JsonVal)>) -> Seq<u8>
    decreases entries,
{
    if entries.len() == 0 {
        Seq::empty()
    } else if entries.len() == 1 {
        enc_entry(entries.last())
    } else {
        enc_entries(entries.drop_last()) + seq![0x2cu8] + enc_entry(entries.last())
    }
}

/// Rendering of one object entry.
pub open spec fn enc_entry(e: (Seq<u8>, JsonVal)) -> Seq<u8>
    decreases e,
{
    enc_string(e.0) + seq![0x3au8] + enc_val(e.1)
}

/// Whether the emitter accepts a document: negative integers keep the
/// `Int` shape and every decimal is two-decimal representable.
pub open spec fn enc_wf(v: JsonVal) -> bool
    decreases v,
{
    match v {
        JsonVal::Int(i) => i < 0,
        JsonVal::Dec(d) => dec_encodable(d),
        JsonVal::Arr(items) => arr_wf(items),
        JsonVal::Obj(entries) => obj_wf(entries),
        _ => true,
    }
}

/// [`enc_wf`] of every element.
pub open spec fn arr_wf(items: Seq<JsonVal>) -> bool
    decreases items,
{
    if items.len() == 0 {
        true
    } else {
        arr_wf(items.drop_last()) && enc_wf(items.last())
    }
}

/// [`enc_wf`] of every entry value.
pub open spec fn obj_wf(entries: Seq<(Seq<u8>, JsonVal)>) -> bool
    decreases entries,
{
    if entries.len() == 0 {
        true
    } else {
        obj_wf(entries.drop_last()) && enc_wf(entries.last().1)
    }
}

pub proof fn lemma_arr_wf_index(items: Seq<JsonVal>, i: int)
    requires
        arr_wf(items),
        0 <= i < items.len(),
    ensures
        enc_wf(items[i]),
    decreases items.len(),
{
    if i + 1 < items.len() {
        lemma_arr_wf_index(items.drop_last(), i);
    }
}

pub proof fn lemma_obj_wf_index(entries: Seq<(Seq<u8>, JsonVal)>, i: int)
    requires
        obj_wf(entries),
        0 <= i < entries.len(),
    ensures
        enc_wf(entries[i].1),
    decreases entries.len(),
{
    if i + 1 < entries.len() {
        lemma_obj_wf_index(entries.drop_last(), i);
    }
}

/// Appends the decimal digits of `n`, most significant first.
fn push_u64_digits(out: &mut Vec<u8>, n: u64)
    ensures
        final(out)@ == old(out)@ + dec_digits(n as nat),
{
    let mut tmp: Vec<u8> = Vec::new();
    let mut cur: u64 = n;
    loop
        invariant_except_break
            cur > 0 ==> dec_digits(n as nat) == dec_digits(cur as nat) + tmp@.reverse(),
            cur == 0 ==> tmp@.len() == 0 && n == 0,
        ensures
            dec_digits(n as nat) == tmp@.reverse(),
        decreases cur,
    {
        let digit: u8 = (cur % 10) as u8;
        let next: u64 = cur / 10;
        let ghost cur0 = cur;
        let ghost t0 = tmp@;
        tmp.push(0x30 + digit);
        cur = next;
        proof {
            let d: u8 = (0x30 + digit) as u8;
            assert(tmp@.reverse() =~= seq![d] + t0.reverse());
            if cur0 >= 10 {
                assert(dec_digits(cur0 as nat) == dec_digits((cur0 / 10) as nat).push(d));
                assert(dec_digits(next as nat) + (seq![d] + t0.reverse()) =~= dec_digits(
                    cur0 as nat,
                ) + t0.reverse());
            } else if cur0 > 0 {
                assert(dec_digits(cur0 as nat) == seq![d]);
                assert(dec_digits(n as nat) =~= tmp@.reverse());
            } else {
                assert(n == 0 && t0.len() == 0);
                assert(tmp@.reverse() =~= seq![0x30u8]);
                assert(dec_digits(0) == seq![0x30u8]);
            }
        }
        if cur == 0 {
            break;
        }
    }
    let ghost digits = dec_digits(n as nat);
    let count: usize = tmp.len();
    let mut i: usize = 0;
    while i < count
        invariant
            count == tmp@.len(),
            count == digits.len(),
            digits == tmp@.reverse(),
            out@ == old(out)@ + digits.take(i as int),
            i <= count,
        decreases count - i,
    {
        let b: u8 = tmp[count - 1 - i];
        proof {
            assert(digits[i as int] == tmp@[count - 1 - i]);
            assert(digits.take(i + 1) =~= digits.take(i as int).push(digits[i as int]));
        }
        out.push(b);
        i = i + 1;
    }
    proof {
        assert(digits.take(count as int) =~= digits);
    }
}

/// Lower-case hexadecimal digit.
fn hex_digit(n: u8) -> (r: u8)
    requires
        n < 16,
    ensures
        r == hexdig(n as nat),
{
    if n < 10 {
        0x30 + n
    } else {
        0x57 + n
    }
}

/// Appends the quoted, escaped rendering of a string body.
///
/// Bytes outside the escape table pass through unchanged; `"`, `\` and
/// five common control bytes take their two-byte short escape, and the
/// remaining bytes below 0x20 take the six-byte `\u00XX` form.
pub fn escape_str(value: &Vec<u8>, out: &mut Vec<u8>)
    ensures
        final(out)@ == old(out)@ + enc_string(value@),
{
    out.push(0x22);
    let len: usize = value.len();
    let mut i: usize = 0;
    while i < len
        invariant
            len == value@.len(),
            i <= len,
            out@ == old(out)@ + seq![0x22u8] + escape_seq(value@.take(i as int)),
        decreases len - i,
    {
        let b: u8 = value[i];
        proof {
            assert(value@.take(i + 1).drop_last() =~= value@.take(i as int));
            assert(value@.take(i + 1).last() == b);
        }
        if b == 0x08 {
            out.push(0x5c);
            out.push(0x62);
        } else if b == 0x09 {
            out.push(0x5c);
            out.push(0x74);
        } else if b == 0x0a {
            out.push(0x5c);
            out.push(0x6e);
        } else if b == 0x0c {
            out.push(0x5c);
            out.push(0x66);
        } else if b == 0x0d {
            out.push(0x5c);
            out.push(0x72);
        } else if b == 0x22 {
            out.push(0x5c);
            out.push(0x22);
        } else if b == 0x5c {
            out.push(0x5c);
            out.push(0x5c);
        } else if b < 0x20 {
            proof {
                assert((b >> 4) < 16 && (b & 0x0f) < 16) by (bit_vector);
            }
            out.push(0x5c);
            out.push(0x75);
            out.push(0x30);
            out.push(0x30);
            out.push(hex_digit(b >> 4));
            out.push(hex_digit(b & 0x0f));
        } else {
            out.push(b);
        }
        proof {
            assert(out@ =~= old(out)@ + seq![0x22u8] + escape_seq(value@.take(i + 1)));
        }
        i = i + 1;
    }
    out.push(0x22);
    proof {
        assert(value@.take(len as int) =~= value@);
        assert(out@ =~= old(out)@ + enc_string(value@));
    }
}

/// Appends the two-decimal rendering of a decimal number.
fn push_dec(out: &mut Vec<u8>, d: DecNumber)
    requires
        dec_encodable(d),
    ensures
        final(out)@ == old(out)@ + enc_dec(d),
{
    let cents: u64 = dec_cents_exec(d);
    if d.neg {
        out.push(0x2d);
    }
    push_u64_digits(out, cents / 100);
    out.push(0x2e);
    out.push(0x30 + ((cents / 10) % 10) as u8);
    out.push(0x30 + (cents % 10) as u8);
    proof {
        assert(out@ =~= old(out)@ + enc_dec(d));
    }
}

/// Computes `mantissa * 10^(exp10+2)` for an encodable decimal.
fn dec_cents_exec(d: DecNumber) -> (r: u64)
    requires
        dec_encodable(d),
    ensures
        r as nat == dec_cents(d),
{
    if d.mantissa == 0 {
        proof {
            assert(dec_cents(d) == 0) by {
                assert(0 * pow10((d.exp10 + 2) as nat) == 0) by (nonlinear_arith);
            }
        }
        0
    } else {
        let e: u32 = ((d.exp10 as i64) + 2) as u32;
        let mut pow: u64 = 1;
        let mut k: u32 = 0;
        while k < e
            invariant
                k <= e,
                d.mantissa >= 1,
                pow as nat == pow10(k as nat),
                d.mantissa * pow10(e as nat) <= u64::MAX,
                e == d.exp10 + 2,
            decreases e - k,
        {
            proof {
                lemma_pow10_mono(k as nat + 1, e as nat);
                assert(pow10(k as nat + 1) == 10 * pow10(k as nat));
                assert(1 * pow10(e as nat) <= d.mantissa * pow10(e as nat)) by (nonlinear_arith)
                    requires d.mantissa >= 1;
            }
            pow = pow * 10;
            k = k + 1;
        }
        proof {
            assert(d.mantissa * pow as nat == dec_cents(d));
        }
        d.mantissa * pow
    }
}

/// `pow10` is monotone in the exponent.
pub proof fn lemma_pow10_mono(a: nat, b: nat)
    requires
        a <= b,
    ensures
        pow10(a) <= pow10(b),
    decreases b,
{
    if a < b {
        lemma_pow10_mono(a, (b - 1) as nat);
        assert(pow10((b - 1) as nat) * 1 <= pow10((b - 1) as nat) * 10) by (nonlinear_arith);
    }
}

/// Appends the sign and digits of a strictly negative integer.
fn push_i64_neg(out: &mut Vec<u8>, i: i64)
    requires
        i < 0,
    ensures
        final(out)@ == old(out)@ + seq![0x2du8] + dec_digits(neg_mag(i)),
{
    out.push(0x2d);
    let mag: u64 = if i == i64::MIN {
        9223372036854775808u64
    } else {
        (-i) as u64
    };
    proof {
        assert(mag as nat == neg_mag(i));
    }
    push_u64_digits(out, mag);
    proof {
        assert(out@ =~= old(out)@ + seq![0x2du8] + dec_digits(neg_mag(i)));
    }
}

pub proof fn lemma_nodes_view_index(s: Seq<JsonNode>)
    ensures
        nodes_view(s).len() == s.len(),
        forall|i: int| 0 <= i < s.len() ==> #[trigger] nodes_view(s)[i] == node_view(s[i]),
    decreases s.len(),
{
    if s.len() > 0 {
        lemma_nodes_view_index(s.drop_last());
    }
}

pub proof fn lemma_entry_nodes_view_index(s: Seq<(Vec<u8>, JsonNode)>)
    ensures
        entry_nodes_view(s).len() == s.len(),
        forall|i: int|
            0 <= i < s.len() ==> #[trigger] entry_nodes_view(s)[i] == (
                s[i].0@,
                node_view(s[i].1),
            ),
    decreases s.len(),
{
    if s.len() > 0 {
        lemma_entry_nodes_view_index(s.drop_last());
    }
}

/// What remains of an array's rendering once the elements before
/// `from` and their separators are out: the rest of the elements, each
/// led by a comma, then the closing bracket.
pub open spec fn arr_tail(items: Seq<JsonVal>, from: int) -> Seq<u8>
    decreases items.len() - from,
{
    if from >= items.len() {
        seq![0x5du8]
    } else {
        seq![0x2cu8] + enc_val(items[from]) + arr_tail(items, from + 1)
    }
}

/// The object counterpart of [`arr_tail`].
pub open spec fn obj_tail(entries: Seq<(Seq<u8>, JsonVal)>, from: int) -> Seq<u8>
    decreases entries.len() - from,
{
    if from >= entries.len() {
        seq![0x7du8]
    } else {
        seq![0x2cu8] + enc_entry(entries[from]) + obj_tail(entries, from + 1)
    }
}

proof fn lemma_arr_split(items: Seq<JsonVal>, k: int)
    requires
        0 <= k < items.len(),
    ensures
        enc_items(items) + seq![0x5du8] == enc_items(items.take(k + 1)) + arr_tail(items, k + 1),
    decreases items.len() - k,
{
    if k + 1 == items.len() {
        assert(items.take(k + 1) =~= items);
    } else {
        lemma_arr_split(items, k + 1);
        assert(items.take(k + 2).drop_last() =~= items.take(k + 1));
        assert(items.take(k + 2).last() == items[k + 1]);
        assert(enc_items(items.take(k + 2)) == enc_items(items.take(k + 1)) + seq![0x2cu8]
            + enc_val(items[k + 1]));
        assert(enc_items(items.take(k + 1)) + arr_tail(items, k + 1) =~= enc_items(
            items.take(k + 2),
        ) + arr_tail(items, k + 2));
    }
}

proof fn lemma_obj_split(entries: Seq<(Seq<u8>, JsonVal)>, k: int)
    requires
        0 <= k < entries.len(),
    ensures
        enc_entries(entries) + seq![0x7du8] == enc_entries(entries.take(k + 1)) + obj_tail(
            entries,
            k + 1,
        ),
    decreases entries.len() - k,
{
    if k + 1 == entries.len() {
        assert(entries.take(k + 1) =~= entries);
    } else {
        lemma_obj_split(entries, k + 1);
        assert(entries.take(k + 2).drop_last() =~= entries.take(k + 1));
        assert(entries.take(k + 2).last() == entries[k + 1]);
        assert(enc_entries(entries.take(k + 2)) == enc_entries(entries.take(k + 1)) + seq![0x2cu8]
            + enc_entry(entries[k + 1]));
        assert(enc_entries(entries.take(k + 1)) + obj_tail(entries, k + 1) =~= enc_entries(
            entries.take(k + 2),
        ) + obj_tail(entries, k + 2));
    }
}

pub proof fn lemma_enc_arr_open(items: Seq<JsonVal>)
    requires
        items.len() > 0,
    ensures
        enc_val(JsonVal::Arr(items)) == seq![0x5bu8] + enc_val(items[0]) + arr_tail(items, 1),
{
    lemma_arr_split(items, 0);
    assert(items.take(1).len() == 1);
    assert(items.take(1).last() == items[0]);
    assert(enc_items(items.take(1)) == enc_val(items[0]));
    assert(enc_items(items) + seq![0x5du8] == enc_val(items[0]) + arr_tail(items, 1));
    assert(enc_val(JsonVal::Arr(items)) =~= seq![0x5bu8] + (enc_items(items) + seq![0x5du8]));
    assert(seq![0x5bu8] + (enc_val(items[0]) + arr_tail(items, 1)) =~= seq![0x5bu8] + enc_val(
        items[0],
    ) + arr_tail(items, 1));
}

pub proof fn lemma_enc_obj_open(entries: Seq<(Seq<u8>, JsonVal)>)
    requires
        entries.len() > 0,
    ensures
        enc_val(JsonVal::Obj(entries)) == seq![0x7bu8] + enc_string(entries[0].0) + seq![0x3au8]
            + enc_val(entries[0].1) + obj_tail(entries, 1),
{
    lemma_obj_split(entries, 0);
    assert(entries.take(1).len() == 1);
    assert(entries.take(1).last() == entries[0]);
    assert(enc_entries(entries.take(1)) == enc_entry(entries[0]));
    assert(enc_entries(entries) + seq![0x7du8] == enc_entry(entries[0]) + obj_tail(entries, 1));
    assert(enc_val(JsonVal::Obj(entries)) =~= seq![0x7bu8] + (enc_entries(entries)
        + seq![0x7du8]));
    assert(enc_entry(entries[0]) == enc_string(entries[0].0) + seq![0x3au8] + enc_val(
        entries[0].1,
    ));
    assert(seq![0x7bu8] + (enc_entry(entries[0]) + obj_tail(entries, 1)) =~= seq![0x7bu8]
        + enc_string(entries[0].0) + seq![0x3au8] + enc_val(entries[0].1) + obj_tail(entries, 1));
}

/// Node count of the elements from `from` on.
pub open spec fn arr_rest_size(items: Seq<JsonVal>, from: int) -> nat
    decreases items.len() - from,
{
    if from >= items.len() {
        0
    } else {
        val_size(items[from]) + arr_rest_size(items, from + 1)
    }
}

/// Node count of the entry values from `from` on.
pub open spec fn obj_rest_size(entries: Seq<(Seq<u8>, JsonVal)>, from: int) -> nat
    decreases entries.len() - from,
{
    if from >= entries.len() {
        0
    } else {
        val_size(entries[from].1) + obj_rest_size(entries, from + 1)
    }
}

/// [`enc_wf`] of the elements from `from` on.
pub open spec fn arr_rest_wf(items: Seq<JsonVal>, from: int) -> bool {
    forall|i: int| from <= i < items.len() ==> #[trigger] enc_wf(items[i])
}

/// [`enc_wf`] of the entry values from `from` on.
pub open spec fn obj_rest_wf(entries: Seq<(Seq<u8>, JsonVal)>, from: int) -> bool {
    forall|i: int| from <= i < entries.len() ==> #[trigger] enc_wf(entries[i].1)
}

proof fn lemma_arr_wf_all(items: Seq<JsonVal>)
    requires
        arr_wf(items),
    ensures
        arr_rest_wf(items, 0),
{
    assert forall|i: int| 0 <= i < items.len() implies #[trigger] enc_wf(items[i]) by {
        lemma_arr_wf_index(items, i);
    }
}

proof fn lemma_obj_wf_all(entries: Seq<(Seq<u8>, JsonVal)>)
    requires
        obj_wf(entries),
    ensures
        obj_rest_wf(entries, 0),
{
    assert forall|i: int| 0 <= i < entries.len() implies #[trigger] enc_wf(entries[i].1) by {
        lemma_obj_wf_index(entries, i);
    }
}

pub proof fn lemma_vals_size_head(t: Seq<JsonVal>)
    requires
        t.len() > 0,
    ensures
        vals_size(t) == val_size(t[0]) + vals_size(t.drop_first()),
    decreases t.len(),
{
    if t.len() == 1 {
        assert(t.drop_first() =~= Seq::empty());
        assert(t.drop_last() =~= Seq::empty());
        assert(vals_size(t) == vals_size(t.drop_last()) + val_size(t.last()));
        assert(vals_size(Seq::<JsonVal>::empty()) == 0);
        assert(t.last() == t[0]);
    } else {
        lemma_vals_size_head(t.drop_last());
        assert(t.drop_last()[0] == t[0]);
        assert(t.drop_first().drop_last() =~= t.drop_last().drop_first());
        assert(t.drop_first().last() == t.last());
        assert(vals_size(t) == vals_size(t.drop_last()) + val_size(t.last()));
        assert(t.drop_first().len() > 0);
        assert(vals_size(t.drop_first()) == vals_size(t.drop_first().drop_last()) + val_size(
            t.drop_first().last(),
        ));
        assert(vals_size(t.drop_last()) == val_size(t[0]) + vals_size(
            t.drop_last().drop_first(),
        ));
    }
}

pub proof fn lemma_arr_rest_size_full(s: Seq<JsonVal>, from: int)
    requires
        0 <= from <= s.len(),
    ensures
        arr_rest_size(s, from) == vals_size(s.skip(from)),
    decreases s.len() - from,
{
    if from == s.len() {
        assert(s.skip(from) =~= Seq::empty());
    } else {
        lemma_arr_rest_size_full(s, from + 1);
        lemma_vals_size_head(s.skip(from));
        assert(s.skip(from).drop_first() =~= s.skip(from + 1));
        assert(s.skip(from)[0] == s[from]);
    }
}

pub proof fn lemma_entries_size_head(t: Seq<(Seq<u8>, JsonVal)>)
    requires
        t.len() > 0,
    ensures
        entries_size(t) == val_size(t[0].1) + entries_size(t.drop_first()),
    decreases t.len(),
{
    if t.len() == 1 {
        assert(t.drop_first() =~= Seq::empty());
        assert(t.drop_last() =~= Seq::empty());
        assert(entries_size(t) == entries_size(t.drop_last()) + val_size(t.last().1));
        assert(t.last() == t[0]);
    } else {
        lemma_entries_size_head(t.drop_last());
        assert(t.drop_last()[0] == t[0]);
        assert(t.drop_first().drop_last() =~= t.drop_last().drop_first());
        assert(t.drop_first().last() == t.last());
        assert(entries_size(t) == entries_size(t.drop_last()) + val_size(t.last().1));
        assert(t.drop_first().len() > 0);
        assert(entries_size(t.drop_first()) == entries_size(t.drop_first().drop_last())
            + val_size(t.drop_first().last().1));
        assert(entries_size(t.drop_last()) == val_size(t[0].1) + entries_size(
            t.drop_last().drop_first(),
        ));
    }
}

pub proof fn lemma_obj_rest_size_full(s: Seq<(Seq<u8>, JsonVal)>, from: int)
    requires
        0 <= from <= s.len(),
    ensures
        obj_rest_size(s, from) == entries_size(s.skip(from)),
    decreases s.len() - from,
{
    if from == s.len() {
        assert(s.skip(from) =~= Seq::empty());
    } else {
        lemma_obj_rest_size_full(s, from + 1);
        lemma_entries_size_head(s.skip(from));
        assert(s.skip(from).drop_first() =~= s.skip(from + 1));
        assert(s.skip(from)[0] == s[from]);
    }
}

/// One suspended enclosing layer of the emitter: the container being
/// rendered and the index of the element currently under way.
enum EmitFrame<'a> {
    InArr(&'a Vec<JsonNode>, usize),
    InObj(&'a Vec<(Vec<u8>, JsonNode)>, usize),
}

/// Bytes a suspended layer still owes once its current element is out.
spec fn frame_pending(f: EmitFrame) -> Seq<u8> {
    match f {
        EmitFrame::InArr(items, idx) => arr_tail(nodes_view(items@), idx + 1),
        EmitFrame::InObj(entries, idx) => obj_tail(entry_nodes_view(entries@), idx + 1),
    }
}

/// Bytes all suspended layers still owe, innermost first.
spec fn stack_pending(s: Seq<EmitFrame>) -> Seq<u8>
    decreases s,
{
    if s.len() == 0 {
        Seq::empty()
    } else {
        frame_pending(s.last()) + stack_pending(s.drop_last())
    }
}

spec fn frame_wf(f: EmitFrame) -> bool {
    match f {
        EmitFrame::InArr(items, idx) => idx < items@.len() && nodes_view(items@).len()
            == items@.len() && arr_rest_wf(nodes_view(items@), idx + 1),
        EmitFrame::InObj(entries, idx) => idx < entries@.len() && entry_nodes_view(entries@).len()
            == entries@.len() && obj_rest_wf(entry_nodes_view(entries@), idx + 1),
    }
}

spec fn stack_wf(s: Seq<EmitFrame>) -> bool {
    forall|i: int| 0 <= i < s.len() ==> #[trigger] frame_wf(s[i])
}

/// Nodes a suspended layer has not yet begun to render.
spec fn frame_rest_size(f: EmitFrame) -> nat {
    match f {
        EmitFrame::InArr(items, idx) => arr_rest_size(nodes_view(items@), idx + 1),
        EmitFrame::InObj(entries, idx) => obj_rest_size(entry_nodes_view(entries@), idx + 1),
    }
}

spec fn stack_rest_size(s: Seq<EmitFrame>) -> nat
    decreases s,
{
    if s.len() == 0 {
        0
    } else {
        frame_rest_size(s.last()) + stack_rest_size(s.drop_last())
    }
}

/// Renders a document to bytes, exactly as [`enc_val`] describes.
///
/// The emitter never calls itself: nesting is carried by an explicit
/// layer stack, so arbitrarily deep documents cost no call-stack
/// growth.
pub fn to_json_bytes(root: &JsonNode) -> (r: Vec<u8>)
    requires
        enc_wf(root@),
    ensures
        r@ == enc_val(root@),
{
    let mut out: Vec<u8> = Vec::new();
    let mut stack: Vec<EmitFrame> = Vec::new();
    let mut cur: &JsonNode = root;
    let ghost goal = enc_val(root@);
    loop
        invariant
            out@ + enc_val(cur@) + stack_pending(stack@) == goal,
            enc_wf(cur@),
            stack_wf(stack@),
            goal == enc_val(root@),
        decreases val_size(cur@) + stack_rest_size(stack@),
    {
        let ghost m0 = val_size(cur@) + stack_rest_size(stack@);
        let mut descend: Option<&JsonNode> = None;
        match cur {
            JsonNode::Null => {
                out.push(0x6e);
                out.push(0x75);
                out.push(0x6c);
                out.push(0x6c);
            }
            JsonNode::Bool(b) => {
                if *b {
                    out.push(0x74);
                    out.push(0x72);
                    out.push(0x75);
                    out.push(0x65);
                } else {
                    out.push(0x66);
                    out.push(0x61);
                    out.push(0x6c);
                    out.push(0x73);
                    out.push(0x65);
                }
            }
            JsonNode::Str(s) => {
                escape_str(s, &mut out);
            }
            JsonNode::UInt(n) => {
                push_u64_digits(&mut out, *n);
            }
            JsonNode::Int(i) => {
                push_i64_neg(&mut out, *i);
            }
            JsonNode::Dec(d) => {
                push_dec(&mut out, *d);
            }
            JsonNode::Arr(items) => {
                out.push(0x5b);
                if items.len() == 0 {
                    out.push(0x5d);
                    proof {
                        assert(enc_val(cur@) =~= seq![0x5bu8, 0x5du8]);
                    }
                } else {
                    proof {
                        lemma_nodes_view_index(items@);
                        lemma_arr_wf_all(nodes_view(items@));
                        lemma_enc_arr_open(nodes_view(items@));
                        lemma_arr_rest_size_full(nodes_view(items@), 0);
                        assert(nodes_view(items@).skip(0) =~= nodes_view(items@));
                    }
                    let child: &JsonNode = &items[0];
                    let ghost st0 = stack@;
                    stack.push(EmitFrame::InArr(items, 0));
                    descend = Some(child);
                    proof {
                        assert(stack@.drop_last() =~= st0);
                    }
                }
            }
            JsonNode::Obj(entries) => {
                out.push(0x7b);
                if entries.len() == 0 {
                    out.push(0x7d);
                    proof {
                        assert(enc_val(cur@) =~= seq![0x7bu8, 0x7du8]);
                    }
                } else {
                    proof {
                        lemma_entry_nodes_view_index(entries@);
                        lemma_obj_wf_all(entry_nodes_view(entries@));
                        lemma_enc_obj_open(entry_nodes_view(entries@));
                        lemma_obj_rest_size_full(entry_nodes_view(entries@), 0);
                        assert(entry_nodes_view(entries@).skip(0) =~= entry_nodes_view(entries@));
                    }
                    escape_str(&entries[0].0, &mut out);
                    out.push(0x3a);
                    let child: &JsonNode = &entries[0].1;
                    let ghost st0 = stack@;
                    stack.push(EmitFrame::InObj(entries, 0));
                    descend = Some(child);
                    proof {
                        assert(stack@.drop_last() =~= st0);
                    }
                }
            }
        }
        match descend {
            Some(child) => {
                cur = child;
                proof {
                    assert(out@ + enc_val(cur@) + stack_pending(stack@) =~= goal);
                }
            }
            None => {
                // The current value is fully rendered; close finished
                // layers and advance to the next pending element.
                loop
                    invariant_except_break
                        out@ + stack_pending(stack@) == goal,
                        stack_wf(stack@),
                        stack_rest_size(stack@) <= m0 - 1,
                        goal == enc_val(root@),
                    ensures
                        out@ + enc_val(cur@) + stack_pending(stack@) == goal,
                        enc_wf(cur@),
                        stack_wf(stack@),
                        val_size(cur@) + stack_rest_size(stack@) <= m0 - 1,
                        goal == enc_val(root@),
                    decreases stack@.len(),
                {
                    if stack.len() == 0 {
                        proof {
                            assert(out@ =~= goal);
                        }
                        return out;
                    }
                    let ghost stp = stack@;
                    let frame = stack.pop().unwrap();
                    proof {
                        assert(frame == stp[stp.len() - 1]);
                        assert(frame_wf(stp[stp.len() - 1]));
                    }
                    match frame {
                        EmitFrame::InArr(items, idx) => {
                            proof {
                                lemma_nodes_view_index(items@);
                            }
                            let n_items: usize = items.len();
                            if idx + 1 < n_items {
                                out.push(0x2c);
                                let child: &JsonNode = &items[idx + 1];
                                let ghost st0 = stack@;
                                stack.push(EmitFrame::InArr(items, idx + 1));
                                cur = child;
                                proof {
                                    assert(stack@.drop_last() =~= st0);
                                    assert(out@ + enc_val(cur@) + stack_pending(stack@)
                                        =~= goal);
                                }
                                break;
                            } else {
                                out.push(0x5d);
                                proof {
                                    assert(out@ + stack_pending(stack@) =~= goal);
                                }
                            }
                        }
                        EmitFrame::InObj(entries, idx) => {
                            proof {
                                lemma_entry_nodes_view_index(entries@);
                            }
                            let n_entries: usize = entries.len();
                            if idx + 1 < n_entries {
                                out.push(0x2c);
                                escape_str(&entries[idx + 1].0, &mut out);
                                out.push(0x3a);
                                let child: &JsonNode = &entries[idx + 1].1;
                                let ghost st0 = stack@;
                                stack.push(EmitFrame::InObj(entries, idx + 1));
                                cur = child;
                                proof {
                                    assert(stack@.drop_last() =~= st0);
                                    assert(out@ + enc_val(cur@) + stack_pending(stack@)
                                        =~= goal);
                                }
                                break;
                            } else {
                                out.push(0x7d);
                                proof {
                                    assert(out@ + stack_pending(stack@) =~= goal);
                                }
                            }
                        }
                    }
                }
            }
        }
    }
}

} // verus!
