//! The codec round trip: parsing an emitted document yields the
//! document back.
//!
//! [`lemma_round_trip`] is the law; [`rt_wf`] circumscribes the
//! documents it holds for. Three families of values fall outside it,
//! each for a reason the wire format itself fixes: strings holding a
//! control byte outside the five short escapes (emitted as `\u00XX`,
//! which the parser deliberately rejects), numbers not in the
//! emitter's two-decimal canonical form (the parser normalizes, so
//! `1.50` and `1.5` read back alike), and non-negative integers in the
//! `Int` shape (the emitter renders value, not shape).

use vstd::prelude::*;

use crate::decode::{
    byte_at, dec_norm, finish_number, is_digit, is_ws, n_digits, run_await, run_have, skip_ws,
    sp_accum_frac, sp_accum_u64, sp_event, sp_exponent, sp_integer, sp_key_colon, sp_number,
    sp_str, spec_parse, PFrameV, SpEvent,
};
use crate::encode::{
    arr_rest_size, arr_tail, dec_cents, dec_digits, dec_encodable, enc_entries, enc_entry,
    enc_items, enc_string, enc_val, enc_wf, esc_byte, escape_seq, neg_mag, obj_rest_size,
    obj_tail, pow10,
};
use crate::json::{val_size, DecNumber, JsonVal};

verus! {

broadcast use vstd::seq::group_seq_axioms;

/// String content the wire can carry back: anything but the control
/// bytes that only have a one-way `\u00XX` rendering.
pub open spec fn str_ok(s: Seq<u8>) -> bool {
    forall|i: int|
        0 <= i < s.len() ==> (s[i] >= 0x20 || s[i] == 0x08 || s[i] == 0x09 || s[i] == 0x0a
            || s[i] == 0x0c || s[i] == 0x0d)
}

/// A document the round trip holds for: emittable, with canonical
/// numbers and two-way-renderable strings.
pub open spec fn rt_wf(v: JsonVal) -> bool
    decreases v,
{
    match v {
        JsonVal::Null => true,
        JsonVal::Bool(_) => true,
        JsonVal::UInt(_) => true,
        JsonVal::Int(i) => i < 0,
        JsonVal::Dec(d) => dec_encodable(d) && (d.mantissa == 0 ==> d.exp10 == 0) && (d.mantissa
            % 10 == 0 ==> d.mantissa == 0),
        JsonVal::Str(s) => str_ok(s),
        JsonVal::Arr(items) => rt_arr(items),
        JsonVal::Obj(entries) => rt_obj(entries),
    }
}

pub open spec fn rt_arr(items: Seq<JsonVal>) -> bool
    decreases items,
{
    if items.len() == 0 {
        true
    } else {
        rt_arr(items.drop_last()) && rt_wf(items.last())
    }
}

pub open spec fn rt_obj(entries: Seq<(Seq<u8>, JsonVal)>) -> bool
    decreases entries,
{
    if entries.len() == 0 {
        true
    } else {
        rt_obj(entries.drop_last()) && str_ok(entries.last().0) && rt_wf(entries.last().1)
    }
}

proof fn lemma_rt_arr_index(items: Seq<JsonVal>, i: int)
    requires
        rt_arr(items),
        0 <= i < items.len(),
    ensures
        rt_wf(items[i]),
    decreases items.len(),
{
    if i + 1 < items.len() {
        lemma_rt_arr_index(items.drop_last(), i);
    }
}

proof fn lemma_rt_obj_index(entries: Seq<(Seq<u8>, JsonVal)>, i: int)
    requires
        rt_obj(entries),
        0 <= i < entries.len(),
    ensures
        str_ok(entries[i].0),
        rt_wf(entries[i].1),
    decreases entries.len(),
{
    if i + 1 < entries.len() {
        lemma_rt_obj_index(entries.drop_last(), i);
    }
}

// byte plumbing: reading single bytes and sub-segments out of an
// embedded segment

proof fn lemma_seg_bytes(s: Seq<u8>, i: int, seg: Seq<u8>)
    requires
        0 <= i,
        i + seg.len() <= s.len(),
        s.subrange(i, i + seg.len()) == seg,
    ensures
        forall|k: int| 0 <= k < seg.len() ==> s[i + k] == #[trigger] seg[k],
{
    assert forall|k: int| 0 <= k < seg.len() implies s[i + k] == #[trigger] seg[k] by {
        assert(s.subrange(i, i + seg.len())[k] == s[i + k]);
    }
}

proof fn lemma_sub_seg(s: Seq<u8>, i: int, seg: Seq<u8>, a: int, b: int)
    requires
        0 <= i,
        i + seg.len() <= s.len(),
        s.subrange(i, i + seg.len()) == seg,
        0 <= a <= b <= seg.len(),
    ensures
        s.subrange(i + a, i + b) == seg.subrange(a, b),
{
    lemma_seg_bytes(s, i, seg);
    assert(s.subrange(i + a, i + b) =~= seg.subrange(a, b));
}

// the string token: unescaping an escaped body

proof fn lemma_escape_seq_head(c: Seq<u8>)
    requires
        c.len() > 0,
    ensures
        escape_seq(c) == esc_byte(c[0]) + escape_seq(c.drop_first()),
    decreases c.len(),
{
    if c.len() == 1 {
        assert(c.drop_last() =~= Seq::<u8>::empty());
        assert(c.drop_first() =~= Seq::<u8>::empty());
        assert(escape_seq(c) =~= esc_byte(c[0]) + escape_seq(c.drop_first()));
    } else {
        lemma_escape_seq_head(c.drop_last());
        assert(c.drop_last()[0] == c[0]);
        assert(c.drop_first().drop_last() =~= c.drop_last().drop_first());
        assert(c.drop_first().last() == c.last());
        assert(escape_seq(c.drop_first()) == escape_seq(c.drop_first().drop_last()) + esc_byte(
            c.drop_first().last(),
        ));
        assert(escape_seq(c) =~= esc_byte(c[0]) + escape_seq(c.drop_first()));
    }
}

/// Scanning the escaped rendering of `c` followed by the closing
/// quote yields `c` appended to the bytes already unescaped.
proof fn lemma_sp_str_enc(s: Seq<u8>, i: int, c: Seq<u8>, acc: Seq<u8>)
    requires
        0 <= i,
        i + escape_seq(c).len() + 1 <= s.len(),
        s.subrange(i, i + escape_seq(c).len() + 1) == escape_seq(c) + seq![0x22u8],
        str_ok(c),
    ensures
        sp_str(s, i, acc) == Some::<(Seq<u8>, int)>((acc + c, i + escape_seq(c).len() + 1)),
    decreases c.len(),
{
    let seg = escape_seq(c) + seq![0x22u8];
    lemma_seg_bytes(s, i, seg);
    if c.len() == 0 {
        assert(escape_seq(c) =~= Seq::<u8>::empty());
        assert(seg[0] == 0x22);
        assert(s[i] == 0x22);
        assert(acc + c =~= acc);
    } else {
        lemma_escape_seq_head(c);
        let b = c[0];
        let e = esc_byte(b);
        let rest = c.drop_first();
        assert(seg =~= e + (escape_seq(rest) + seq![0x22u8]));
        assert(forall|k: int| 0 <= k < e.len() ==> #[trigger] seg[k] == e[k]);
        lemma_sub_seg(s, i, seg, e.len() as int, seg.len() as int);
        assert(seg.subrange(e.len() as int, seg.len() as int) =~= escape_seq(rest)
            + seq![0x22u8]);
        assert(s[i] == seg[0]);
        assert(seg.len() >= 2 ==> s[i + 1] == seg[1]);
        assert(str_ok(rest)) by {
            assert(forall|k: int| 0 <= k < rest.len() ==> rest[k] == c[k + 1]);
        }
        assert(rt_byte_of(b));
        if b == 0x22 || b == 0x5c {
            assert(e =~= seq![0x5cu8, b]);
            assert(s[i] == 0x5c && s[i + 1] == b);
            lemma_sp_str_enc(s, i + 2, rest, acc.push(b));
            assert(acc.push(b) + rest =~= acc + c);
        } else if b == 0x08 || b == 0x09 || b == 0x0a || b == 0x0c || b == 0x0d {
            assert(s[i] == 0x5c);
            assert(s[i + 1] == e[1]);
            assert(crate::decode::unescape(e[1]) == Some(b));
            lemma_sp_str_enc(s, i + 2, rest, acc.push(b));
            assert(acc.push(b) + rest =~= acc + c);
        } else {
            assert(b >= 0x20);
            assert(e =~= seq![b]);
            assert(s[i] == b);
            assert(b != 0x22 && b != 0x5c);
            lemma_sp_str_enc(s, i + 1, rest, acc.push(b));
            assert(acc.push(b) + rest =~= acc + c);
        }
    }
}

/// A byte string content may carry back.
pub open spec fn rt_byte_of(b: u8) -> bool {
    b >= 0x20 || b == 0x08 || b == 0x09 || b == 0x0a || b == 0x0c || b == 0x0d
}

// the number tokens: reading rendered digits back

proof fn lemma_dec_digits_class(n: nat)
    ensures
        dec_digits(n).len() >= 1,
        forall|k: int| 0 <= k < dec_digits(n).len() ==> is_digit(#[trigger] dec_digits(n)[k]),
        n >= 10 ==> dec_digits(n)[0] > 0x30,
        n < 10 ==> dec_digits(n)[0] == 0x30 + n,
    decreases n,
{
    if n >= 10 {
        lemma_dec_digits_class(n / 10);
        assert(dec_digits(n) == dec_digits(n / 10).push((0x30 + n % 10) as u8));
        assert(forall|k: int|
            0 <= k < dec_digits(n / 10).len() ==> dec_digits(n)[k] == #[trigger] dec_digits(
                n / 10,
            )[k]);
        assert(dec_digits(n)[dec_digits(n).len() - 1] == (0x30 + n % 10) as u8);
    }
}

/// Digit accumulation walks straight through a rendered number: after
/// the digits of `n`, the accumulator holds exactly `n`.
proof fn lemma_digits_run(s: Seq<u8>, i: int, n: u64)
    requires
        0 <= i,
        i + dec_digits(n as nat).len() <= s.len(),
        s.subrange(i, i + dec_digits(n as nat).len()) == dec_digits(n as nat),
    ensures
        is_digit(s[i]),
        sp_accum_u64(s, i + 1, (s[i] - 0x30) as u64) == sp_accum_u64(
            s,
            i + dec_digits(n as nat).len(),
            n,
        ),
    decreases n,
{
    let seg = dec_digits(n as nat);
    lemma_seg_bytes(s, i, seg);
    lemma_dec_digits_class(n as nat);
    if n < 10 {
        assert(seg.len() == 1);
        assert(s[i] == seg[0]);
    } else {
        let q: u64 = n / 10;
        let dl: u8 = (0x30 + n % 10) as u8;
        assert(seg == dec_digits(q as nat).push(dl));
        let lp = dec_digits(q as nat).len() as int;
        lemma_sub_seg(s, i, seg, 0, lp);
        assert(seg.subrange(0, lp) =~= dec_digits(q as nat));
        lemma_digits_run(s, i, q);
        // one more unfolding consumes the last digit
        assert(s[i + lp] == seg[lp]);
        assert(is_digit(s[i + lp]));
        assert(!(q > 1844674407370955161 || (q == 1844674407370955161 && (n % 10) > 5)));
        assert(sp_accum_u64(s, i + lp, q) == sp_accum_u64(s, i + lp + 1, (q * 10 + n % 10) as u64));
        assert((q * 10 + n % 10) as u64 == n);
    }
}

/// A byte no number token continues through.
pub open spec fn num_boundary(b: u8) -> bool {
    !is_digit(b) && b != 0x2e && b != 0x65 && b != 0x45
}

/// An integer token renders and reads back: the digits of `n` at `i`,
/// with a boundary byte after them, make the integer event for `n`.
proof fn lemma_sp_integer_enc(s: Seq<u8>, i: int, nonneg: bool, n: u64)
    requires
        0 <= i,
        i + dec_digits(n as nat).len() <= s.len(),
        s.subrange(i, i + dec_digits(n as nat).len()) == dec_digits(n as nat),
        num_boundary(byte_at(s, i + dec_digits(n as nat).len())),
    ensures
        sp_integer(s, i + 1, nonneg, s[i]) == Some::<(JsonVal, int)>(
            (crate::decode::int_event(nonneg, n), i + dec_digits(n as nat).len()),
        ),
{
    let seg = dec_digits(n as nat);
    let end = i + seg.len();
    lemma_seg_bytes(s, i, seg);
    lemma_dec_digits_class(n as nat);
    assert(s[i] == seg[0]);
    lemma_digits_run(s, i, n);
    if n == 0 {
        assert(s[i] == 0x30);
        assert(!is_digit(byte_at(s, i + 1)));
        assert(sp_number(s, i + 1, nonneg, 0) == Some::<(JsonVal, int)>(
            (crate::decode::int_event(nonneg, 0), i + 1),
        ));
    } else {
        assert(s[i] != 0x30);
        assert(sp_accum_u64(s, end, n) == (n, end, false)) by {
            assert(!(0 <= end < s.len() && is_digit(s[end])));
        }
        assert(sp_accum_u64(s, i + 1, (s[i] - 0x30) as u64) == (n, end, false));
        assert(sp_number(s, end, nonneg, n) == Some::<(JsonVal, int)>(
            (crate::decode::int_event(nonneg, n), end),
        ));
    }
}

/// Stripping the trailing zeros a scale factor added recovers the
/// canonical mantissa and exponent.
proof fn lemma_dec_norm_pow(m: u64, k: nat, x: int)
    requires
        m > 0,
        m % 10 != 0,
        m * pow10(k) <= u64::MAX,
    ensures
        dec_norm((m * pow10(k)) as u64, x) == (m, x + k),
    decreases k,
{
    if k == 0 {
        assert(pow10(0) == 1);
        assert(m * 1 == m) by (nonlinear_arith);
    } else {
        let c = (m * pow10(k)) as u64;
        assert(pow10(k) == 10 * pow10((k - 1) as nat));
        assert(m * (10 * pow10((k - 1) as nat)) == 10 * (m * pow10((k - 1) as nat)))
            by (nonlinear_arith);
        crate::encode::lemma_pow10_mono((k - 1) as nat, k);
        assert(m * pow10((k - 1) as nat) <= m * pow10(k)) by (nonlinear_arith)
            requires
                pow10((k - 1) as nat) <= pow10(k),
                m >= 0,
        ;
        assert(c == 10 * (m * pow10((k - 1) as nat)));
        lemma_pow10_pos((k - 1) as nat);
        assert(c % 10 == 0 && c > 0 && c / 10 == m * pow10((k - 1) as nat)) by (nonlinear_arith)
            requires
                c == 10 * (m * pow10((k - 1) as nat)),
                m > 0,
                pow10((k - 1) as nat) > 0,
        ;
        lemma_dec_norm_pow(m, (k - 1) as nat, x + 1);
    }
}

proof fn lemma_pow10_pos(k: nat)
    ensures
        pow10(k) >= 1,
    decreases k,
{
    if k > 0 {
        lemma_pow10_pos((k - 1) as nat);
    }
}

/// The fraction-and-finish half of a rendered decimal: from its first
/// digit, the token reads back as exactly the canonical decimal.
proof fn lemma_dec_tail(s: Seq<u8>, i: int, nonneg: bool, d: DecNumber)
    requires
        0 <= i,
        d.neg == !nonneg,
        dec_encodable(d),
        d.mantissa == 0 ==> d.exp10 == 0,
        d.mantissa % 10 == 0 ==> d.mantissa == 0,
        i + dec_tail_len(d) <= s.len(),
        s.subrange(i, i + dec_tail_len(d)) == dec_tail_seg(d),
        num_boundary(byte_at(s, i + dec_tail_len(d))),
    ensures
        sp_integer(s, i + 1, nonneg, s[i]) == Some::<(JsonVal, int)>(
            (JsonVal::Dec(d), i + dec_tail_len(d)),
        ),
{
    let cents = dec_cents(d);
    let ip: u64 = (cents / 100) as u64;
    let seg = dec_tail_seg(d);
    let lp = dec_digits(ip as nat).len() as int;
    let end = i + seg.len();
    lemma_seg_bytes(s, i, seg);
    lemma_dec_digits_class(ip as nat);
    assert(cents <= u64::MAX);
    lemma_sub_seg(s, i, seg, 0, lp);
    assert(seg.subrange(0, lp) =~= dec_digits(ip as nat));
    lemma_digits_run(s, i, ip);
    let dot = i + lp;
    assert(s[dot] == seg[lp] && s[dot + 1] == seg[lp + 1] && s[dot + 2] == seg[lp + 2]);
    assert(seg[lp] == 0x2e && seg[lp + 1] == (0x30 + (cents / 10) % 10) as u8 && seg[lp + 2] == (
    0x30 + cents % 10) as u8);
    assert(s[dot] == 0x2e);
    assert(s[dot + 1] == (0x30 + (cents / 10) % 10) as u8);
    assert(s[dot + 2] == (0x30 + cents % 10) as u8);
    // the integer part stops at the dot
    assert(sp_accum_u64(s, dot, ip) == (ip, dot, false));
    assert(sp_accum_u64(s, i + 1, (s[i] - 0x30) as u64) == (ip, dot, false));
    if ip == 0 {
        assert(s[i] == 0x30);
        assert(!is_digit(byte_at(s, i + 1)));
    } else {
        assert(s[i] != 0x30);
    }
    // two fraction digits rebuild the hundredths count
    let d1: u64 = ((cents / 10) % 10) as u64;
    let d0: u64 = (cents % 10) as u64;
    assert(cents / 10 == ip * 10 + d1 && cents == (cents / 10) * 10 + d0) by (nonlinear_arith)
        requires
            cents >= 0,
            ip == cents / 100,
            d1 == (cents / 10) % 10,
            d0 == cents % 10,
    ;
    assert(is_digit(s[dot + 1]) && is_digit(s[dot + 2]));
    assert(!(ip > 1844674407370955161 || (ip == 1844674407370955161 && d1 > 5)));
    assert(sp_accum_frac(s, dot + 1, ip, 0) == sp_accum_frac(
        s,
        dot + 2,
        (ip * 10 + d1) as u64,
        -1,
    ));
    let c10: u64 = (ip * 10 + d1) as u64;
    assert(c10 == cents / 10);
    assert(!(c10 > 1844674407370955161 || (c10 == 1844674407370955161 && d0 > 5)));
    assert(sp_accum_frac(s, dot + 2, c10, -1) == sp_accum_frac(s, dot + 3, (c10 * 10 + d0) as u64, -2));
    assert((c10 * 10 + d0) as u64 == cents);
    assert(sp_accum_frac(s, dot + 3, cents as u64, -2) == (cents as u64, -2int, dot + 3)) by {
        assert(!(0 <= dot + 3 < s.len() && is_digit(s[dot + 3])));
    }
    assert(dot + 3 == end);
    // the token ends; normalization recovers the canonical form
    assert(!(byte_at(s, end) == 0x65 || byte_at(s, end) == 0x45));
    if d.mantissa == 0 {
        assert(cents == 0) by (nonlinear_arith)
            requires
                cents == 0 * pow10((d.exp10 + 2) as nat),
        ;
        assert(finish_number(d.neg, 0, -2) == Some(DecNumber { neg: d.neg, mantissa: 0, exp10: 0 }));
        assert(DecNumber { neg: d.neg, mantissa: 0, exp10: 0 } == d);
    } else {
        lemma_pow10_pos((d.exp10 + 2) as nat);
        assert(cents >= d.mantissa * 1 && d.mantissa * 1 == d.mantissa) by (nonlinear_arith)
            requires
                cents == d.mantissa * pow10((d.exp10 + 2) as nat),
                pow10((d.exp10 + 2) as nat) >= 1,
                d.mantissa > 0,
        ;
        assert(cents > 0);
        lemma_dec_norm_pow(d.mantissa, (d.exp10 + 2) as nat, -2);
        assert(dec_norm(cents as u64, -2) == (d.mantissa, d.exp10 as int));
        // the magnitude stays far under the range limit
        crate::decode::lemma_n_digits_u64(d.mantissa);
        crate::decode::lemma_pow10_20();
        assert(d.exp10 + 2 < 20) by {
            if d.exp10 + 2 >= 20 {
                crate::encode::lemma_pow10_mono(20, (d.exp10 + 2) as nat);
                assert(d.mantissa * pow10((d.exp10 + 2) as nat) >= 1 * pow10(
                    (d.exp10 + 2) as nat,
                )) by (nonlinear_arith)
                    requires
                        d.mantissa >= 1,
                        pow10((d.exp10 + 2) as nat) >= 0,
                ;
            }
        }
        assert(n_digits(d.mantissa as nat) + d.exp10 <= 309);
        assert(finish_number(d.neg, cents as u64, -2) == Some(d));
    }
}

/// The bytes of a rendered decimal after its sign.
pub open spec fn dec_tail_seg(d: DecNumber) -> Seq<u8> {
    dec_digits((dec_cents(d) / 100) as nat) + seq![
        0x2eu8,
        (0x30 + (dec_cents(d) / 10) % 10) as u8,
        (0x30 + dec_cents(d) % 10) as u8,
    ]
}

pub open spec fn dec_tail_len(d: DecNumber) -> int {
    dec_tail_seg(d).len() as int
}

// whole scalar tokens at the event level

/// Whether a document is a scalar: rendered as one token.
pub open spec fn is_scalar(v: JsonVal) -> bool {
    !(v is Arr || v is Obj)
}

/// A rendering's first byte: never whitespace, a comma, a colon or a
/// closing bracket, so a rendering placed at a token position starts
/// the token itself.
proof fn lemma_enc_first(v: JsonVal)
    requires
        enc_wf(v),
    ensures
        enc_val(v).len() >= 1,
        !is_ws(enc_val(v)[0]),
        enc_val(v)[0] != 0x2c && enc_val(v)[0] != 0x3a && enc_val(v)[0] != 0x5d && enc_val(v)[0]
            != 0x7d,
{
    match v {
        JsonVal::UInt(n) => {
            lemma_dec_digits_class(n as nat);
        }
        JsonVal::Int(i) => {
            lemma_dec_digits_class(neg_mag(i));
            assert(enc_val(v)[0] == 0x2d);
        }
        JsonVal::Dec(d) => {
            lemma_dec_digits_class((dec_cents(d) / 100) as nat);
            if d.neg {
                assert(enc_val(v)[0] == 0x2d);
            } else {
                assert(enc_val(v) =~= dec_tail_seg(d));
                assert(enc_val(v)[0] == dec_digits((dec_cents(d) / 100) as nat)[0]);
            }
        }
        JsonVal::Str(s) => {
            assert(enc_val(v)[0] == 0x22);
        }
        _ => {}
    }
}

/// Scanning stops at once on a non-whitespace byte.
proof fn lemma_skip_ws_stop(s: Seq<u8>, i: int)
    requires
        0 <= i < s.len(),
        !is_ws(s[i]),
    ensures
        skip_ws(s, i) == i,
{
}

/// A rendered scalar at a token position reads back as its own value
/// in one event.
#[verifier::rlimit(100)]
proof fn lemma_sp_event_enc(s: Seq<u8>, i: int, v: JsonVal)
    requires
        0 <= i,
        is_scalar(v),
        rt_wf(v),
        enc_wf(v),
        i + enc_val(v).len() <= s.len(),
        s.subrange(i, i + enc_val(v).len()) == enc_val(v),
        num_boundary(byte_at(s, i + enc_val(v).len())),
    ensures
        sp_event(s, i) == Some::<(SpEvent, int)>((SpEvent::Scalar(v), i + enc_val(v).len())),
{
    let seg = enc_val(v);
    let end = i + seg.len();
    lemma_seg_bytes(s, i, seg);
    lemma_enc_first(v);
    assert(s[i] == seg[0]);
    lemma_skip_ws_stop(s, i);
    match v {
        JsonVal::Null => {
            assert(s[i] == 0x6e && s[i + 1] == seg[1] && s[i + 2] == seg[2] && s[i + 3] == seg[3]);
        }
        JsonVal::Bool(b) => {
            if b {
                assert(s[i] == 0x74 && s[i + 1] == seg[1] && s[i + 2] == seg[2] && s[i + 3]
                    == seg[3]);
            } else {
                assert(s[i] == 0x66 && s[i + 1] == seg[1] && s[i + 2] == seg[2] && s[i + 3]
                    == seg[3] && s[i + 4] == seg[4]);
            }
        }
        JsonVal::Str(c) => {
            assert(s[i] == 0x22);
            assert(seg =~= seq![0x22u8] + (escape_seq(c) + seq![0x22u8]));
            lemma_sub_seg(s, i, seg, 1, seg.len() as int);
            assert(seg.subrange(1, seg.len() as int) =~= escape_seq(c) + seq![0x22u8]);
            lemma_sp_str_enc(s, i + 1, c, Seq::empty());
            assert(Seq::<u8>::empty() + c =~= c);
        }
        JsonVal::UInt(n) => {
            lemma_dec_digits_class(n as nat);
            assert(seg == dec_digits(n as nat));
            assert(is_digit(seg[0]));
            assert(is_digit(s[i]));
            lemma_sp_integer_enc(s, i, true, n);
            assert(crate::decode::int_event(true, n) == JsonVal::UInt(n));
        }
        JsonVal::Int(iv) => {
            let mag: u64 = neg_mag(iv) as u64;
            assert(s[i] == 0x2d);
            assert(seg =~= seq![0x2du8] + dec_digits(mag as nat));
            lemma_sub_seg(s, i, seg, 1, seg.len() as int);
            assert(seg.subrange(1, seg.len() as int) =~= dec_digits(mag as nat));
            lemma_sp_integer_enc(s, i + 1, false, mag);
            assert(i + 1 < s.len());
            assert(crate::decode::int_event(false, mag) == JsonVal::Int(iv)) by {
                assert(mag <= 0x8000000000000000);
                assert((-(mag as int)) as i64 == iv);
            }
        }
        JsonVal::Dec(d) => {
            if d.neg {
                assert(s[i] == 0x2d);
                assert(seg =~= seq![0x2du8] + dec_tail_seg(d));
                lemma_sub_seg(s, i, seg, 1, seg.len() as int);
                assert(seg.subrange(1, seg.len() as int) =~= dec_tail_seg(d));
                lemma_dec_tail(s, i + 1, false, d);
                assert(i + 1 < s.len());
                assert(is_digit(s[i + 1])) by {
                    lemma_dec_digits_class((dec_cents(d) / 100) as nat);
                    assert(dec_tail_seg(d)[0] == dec_digits((dec_cents(d) / 100) as nat)[0]);
                }
            } else {
                assert(seg =~= dec_tail_seg(d));
                lemma_dec_tail(s, i, true, d);
                assert(is_digit(s[i])) by {
                    lemma_dec_digits_class((dec_cents(d) / 100) as nat);
                    assert(seg[0] == dec_digits((dec_cents(d) / 100) as nat)[0]);
                }
            }
        }
        _ => {}
    }
}

// the document machine run over a whole rendering

proof fn lemma_val_size_pos(v: JsonVal)
    ensures
        val_size(v) >= 1,
{
}

/// Running the machine over a rendered document carries it from
/// awaiting a value to holding that value, whatever layers wait below.
proof fn lemma_run_enc(s: Seq<u8>, i: int, st: Seq<PFrameV>, v: JsonVal)
    requires
        0 <= i,
        i + enc_val(v).len() <= s.len(),
        s.subrange(i, i + enc_val(v).len()) == enc_val(v),
        rt_wf(v),
        enc_wf(v),
        num_boundary(byte_at(s, i + enc_val(v).len())),
    ensures
        run_await(s, i, st) == run_have(s, i + enc_val(v).len(), st, v),
    decreases val_size(v), 2int,
{
    if is_scalar(v) {
        lemma_seg_bytes(s, i, enc_val(v));
        lemma_enc_first(v);
        lemma_sp_event_enc(s, i, v);
    } else if v is Arr {
        lemma_run_enc_arr(s, i, st, v);
    } else {
        lemma_run_enc_obj(s, i, st, v);
    }
}

/// The array case of [`lemma_run_enc`].
#[verifier::rlimit(100)]
proof fn lemma_run_enc_arr(s: Seq<u8>, i: int, st: Seq<PFrameV>, v: JsonVal)
    requires
        0 <= i,
        v is Arr,
        i + enc_val(v).len() <= s.len(),
        s.subrange(i, i + enc_val(v).len()) == enc_val(v),
        rt_wf(v),
        enc_wf(v),
        num_boundary(byte_at(s, i + enc_val(v).len())),
    ensures
        run_await(s, i, st) == run_have(s, i + enc_val(v).len(), st, v),
    decreases val_size(v), 1int,
{
    let seg = enc_val(v);
    let end = i + seg.len();
    lemma_seg_bytes(s, i, seg);
    lemma_enc_first(v);
    let items = v->Arr_0;
    assert(s[i] == seg[0] && seg[0] == 0x5b);
    lemma_skip_ws_stop(s, i);
    assert(sp_event(s, i) == Some::<(SpEvent, int)>((SpEvent::ArrStart, i + 1)));
    if items.len() == 0 {
        assert(enc_items(items) =~= Seq::<u8>::empty());
        assert(seg =~= seq![0x5bu8, 0x5du8]);
        assert(s[i + 1] == 0x5d);
        lemma_skip_ws_stop(s, i + 1);
        assert(items =~= Seq::<JsonVal>::empty());
        assert(run_await(s, i, st) == run_have(s, i + 2, st, JsonVal::Arr(Seq::empty())));
        assert(JsonVal::Arr(Seq::empty()) == v);
    } else {
        crate::encode::lemma_enc_arr_open(items);
        assert(seg == seq![0x5bu8] + enc_val(items[0]) + arr_tail(items, 1));
        let inner = enc_val(items[0]) + arr_tail(items, 1);
        assert(seg =~= seq![0x5bu8] + inner);
        lemma_sub_seg(s, i, seg, 1, seg.len() as int);
        assert(seg.subrange(1, seg.len() as int) =~= inner);
        lemma_rt_arr_index(items, 0);
        crate::encode::lemma_arr_wf_index(items, 0);
        lemma_enc_first(items[0]);
        assert(s[i + 1] == seg[1]);
        assert(seg[1] == inner[0] && inner[0] == enc_val(items[0])[0]);
        lemma_skip_ws_stop(s, i + 1);
        assert(byte_at(s, i + 1) != 0x5d);
        assert(items.take(0) =~= Seq::<JsonVal>::empty());
        crate::encode::lemma_arr_rest_size_full(items, 0);
        assert(items.skip(0) =~= items);
        lemma_run_arr(s, i + 1, st, items, 0);
        assert(run_await(s, i, st) == run_await(s, i + 1, st.push(PFrameV::PArr(items.take(0)))));
    }
}

/// The object case of [`lemma_run_enc`].
#[verifier::rlimit(100)]
proof fn lemma_run_enc_obj(s: Seq<u8>, i: int, st: Seq<PFrameV>, v: JsonVal)
    requires
        0 <= i,
        v is Obj,
        i + enc_val(v).len() <= s.len(),
        s.subrange(i, i + enc_val(v).len()) == enc_val(v),
        rt_wf(v),
        enc_wf(v),
        num_boundary(byte_at(s, i + enc_val(v).len())),
    ensures
        run_await(s, i, st) == run_have(s, i + enc_val(v).len(), st, v),
    decreases val_size(v), 1int,
{
    let seg = enc_val(v);
    let end = i + seg.len();
    lemma_seg_bytes(s, i, seg);
    lemma_enc_first(v);
    let entries = v->Obj_0;
    assert(s[i] == seg[0] && seg[0] == 0x7b);
    lemma_skip_ws_stop(s, i);
    assert(sp_event(s, i) == Some::<(SpEvent, int)>((SpEvent::ObjStart, i + 1)));
    if entries.len() == 0 {
        assert(enc_entries(entries) =~= Seq::<u8>::empty());
        assert(seg =~= seq![0x7bu8, 0x7du8]);
        assert(s[i + 1] == 0x7d);
        lemma_skip_ws_stop(s, i + 1);
        assert(entries =~= Seq::<(Seq<u8>, JsonVal)>::empty());
        assert(run_await(s, i, st) == run_have(s, i + 2, st, JsonVal::Obj(Seq::empty())));
        assert(JsonVal::Obj(Seq::empty()) == v);
    } else {
        crate::encode::lemma_enc_obj_open(entries);
        let k0 = entries[0].0;
        let v0 = entries[0].1;
        let inner = enc_string(k0) + seq![0x3au8] + enc_val(v0) + obj_tail(entries, 1);
        assert(seg == seq![0x7bu8] + enc_string(k0) + seq![0x3au8] + enc_val(v0) + obj_tail(
            entries,
            1,
        ));
        assert(seg =~= seq![0x7bu8] + inner);
        lemma_sub_seg(s, i, seg, 1, seg.len() as int);
        assert(seg.subrange(1, seg.len() as int) =~= inner);
        lemma_rt_obj_index(entries, 0);
        crate::encode::lemma_obj_wf_index(entries, 0);
        assert(s[i + 1] == seg[1] && seg[1] == inner[0] && inner[0] == 0x22);
        lemma_skip_ws_stop(s, i + 1);
        assert(byte_at(s, i + 1) != 0x7d);
        // the leading key and colon
        let klen = enc_string(k0).len() as int;
        assert(inner =~= seq![0x22u8] + (escape_seq(k0) + seq![0x22u8]) + (seq![0x3au8]
            + enc_val(v0) + obj_tail(entries, 1)));
        lemma_sub_seg(s, i + 1, inner, 1, klen);
        assert(inner.subrange(1, klen) =~= escape_seq(k0) + seq![0x22u8]);
        lemma_sp_str_enc(s, i + 2, k0, Seq::empty());
        assert(Seq::<u8>::empty() + k0 =~= k0);
        assert(s[i + 1 + klen] == inner[klen] && inner[klen] == 0x3a);
        lemma_skip_ws_stop(s, i + 1 + klen);
        assert(sp_key_colon(s, i + 1) == Some::<(Seq<u8>, int)>((k0, i + 2 + klen)));
        assert(entries.take(0) =~= Seq::<(Seq<u8>, JsonVal)>::empty());
        lemma_sub_seg(s, i + 1, inner, klen + 1, inner.len() as int);
        assert(inner.subrange(klen + 1, inner.len() as int) =~= enc_val(v0) + obj_tail(
            entries,
            1,
        ));
        crate::encode::lemma_obj_rest_size_full(entries, 0);
        assert(entries.skip(0) =~= entries);
        lemma_run_obj(s, i + 2 + klen, st, entries, 0);
        assert(run_await(s, i, st) == run_await(
            s,
            i + 2 + klen,
            st.push(PFrameV::PObj(entries.take(0), k0)),
        ));
    }
}

/// Running the machine from the `done`-th element of a rendered array
/// finishes the array.
#[verifier::rlimit(100)]
proof fn lemma_run_arr(s: Seq<u8>, i: int, st: Seq<PFrameV>, all: Seq<JsonVal>, done: int)
    requires
        0 <= i,
        0 <= done < all.len(),
        i + enc_val(all[done]).len() + arr_tail(all, done + 1).len() <= s.len(),
        s.subrange(i, i + enc_val(all[done]).len() + arr_tail(all, done + 1).len()) == enc_val(
            all[done],
        ) + arr_tail(all, done + 1),
        rt_arr(all),
        crate::encode::arr_wf(all),
    ensures
        run_await(s, i, st.push(PFrameV::PArr(all.take(done)))) == run_have(
            s,
            i + enc_val(all[done]).len() + arr_tail(all, done + 1).len(),
            st,
            JsonVal::Arr(all),
        ),
    decreases 1 + arr_rest_size(all, done), 0int,
{
    let e = all[done];
    let elen = enc_val(e).len() as int;
    let tail = arr_tail(all, done + 1);
    let seg = enc_val(e) + tail;
    let end = i + seg.len();
    lemma_seg_bytes(s, i, seg);
    lemma_rt_arr_index(all, done);
    crate::encode::lemma_arr_wf_index(all, done);
    lemma_val_size_pos(e);
    lemma_sub_seg(s, i, seg, 0, elen);
    assert(seg.subrange(0, elen) =~= enc_val(e));
    lemma_sub_seg(s, i, seg, elen, seg.len() as int);
    assert(seg.subrange(elen, seg.len() as int) =~= tail);
    // the element's rendering ends at a comma or the closing bracket
    assert(s[i + elen] == seg[elen] && seg[elen] == tail[0]);
    assert(tail[0] == 0x2c || tail[0] == 0x5d);
    lemma_run_enc(s, i, st.push(PFrameV::PArr(all.take(done))), e);
    lemma_skip_ws_stop(s, i + elen);
    assert((st.push(PFrameV::PArr(all.take(done)))).drop_last() =~= st);
    if done + 1 < all.len() {
        assert(tail[0] == 0x2c);
        assert(tail =~= seq![0x2cu8] + (enc_val(all[done + 1]) + arr_tail(all, done + 2)));
        lemma_sub_seg(s, i + elen, tail, 1, tail.len() as int);
        assert(tail.subrange(1, tail.len() as int) =~= enc_val(all[done + 1]) + arr_tail(
            all,
            done + 2,
        ));
        assert(all.take(done).push(e) =~= all.take(done + 1));
        lemma_run_arr(s, i + elen + 1, st, all, done + 1);
        assert(run_have(s, i + elen, st.push(PFrameV::PArr(all.take(done))), e) == run_await(
            s,
            i + elen + 1,
            st.push(PFrameV::PArr(all.take(done + 1))),
        ));
    } else {
        assert(tail =~= seq![0x5du8]);
        assert(all.take(done).push(e) =~= all);
        assert(run_have(s, i + elen, st.push(PFrameV::PArr(all.take(done))), e) == run_have(
            s,
            i + elen + 1,
            st,
            JsonVal::Arr(all),
        ));
    }
}

/// Running the machine from the `done`-th entry's value of a rendered
/// object finishes the object.
#[verifier::rlimit(100)]
proof fn lemma_run_obj(
    s: Seq<u8>,
    i: int,
    st: Seq<PFrameV>,
    all: Seq<(Seq<u8>, JsonVal)>,
    done: int,
)
    requires
        0 <= i,
        0 <= done < all.len(),
        i + enc_val(all[done].1).len() + obj_tail(all, done + 1).len() <= s.len(),
        s.subrange(i, i + enc_val(all[done].1).len() + obj_tail(all, done + 1).len()) == enc_val(
            all[done].1,
        ) + obj_tail(all, done + 1),
        rt_obj(all),
        crate::encode::obj_wf(all),
    ensures
        run_await(s, i, st.push(PFrameV::PObj(all.take(done), all[done].0))) == run_have(
            s,
            i + enc_val(all[done].1).len() + obj_tail(all, done + 1).len(),
            st,
            JsonVal::Obj(all),
        ),
    decreases 1 + obj_rest_size(all, done), 0int,
{
    let e = all[done].1;
    let key = all[done].0;
    let elen = enc_val(e).len() as int;
    let tail = obj_tail(all, done + 1);
    let seg = enc_val(e) + tail;
    let end = i + seg.len();
    lemma_seg_bytes(s, i, seg);
    lemma_rt_obj_index(all, done);
    crate::encode::lemma_obj_wf_index(all, done);
    lemma_val_size_pos(e);
    lemma_sub_seg(s, i, seg, 0, elen);
    assert(seg.subrange(0, elen) =~= enc_val(e));
    lemma_sub_seg(s, i, seg, elen, seg.len() as int);
    assert(seg.subrange(elen, seg.len() as int) =~= tail);
    assert(s[i + elen] == seg[elen] && seg[elen] == tail[0]);
    assert(tail[0] == 0x2c || tail[0] == 0x7d);
    lemma_run_enc(s, i, st.push(PFrameV::PObj(all.take(done), key)), e);
    lemma_skip_ws_stop(s, i + elen);
    assert((st.push(PFrameV::PObj(all.take(done), key))).drop_last() =~= st);
    if done + 1 < all.len() {
        let k1 = all[done + 1].0;
        let v1 = all[done + 1].1;
        lemma_rt_obj_index(all, done + 1);
        assert(tail[0] == 0x2c);
        assert(tail == seq![0x2cu8] + enc_entry(all[done + 1]) + obj_tail(all, done + 2));
        let klen = enc_string(k1).len() as int;
        assert(tail =~= seq![0x2cu8] + (seq![0x22u8] + (escape_seq(k1) + seq![0x22u8])) + (
        seq![0x3au8] + enc_val(v1) + obj_tail(all, done + 2)));
        assert(s[i + elen + 1] == seg[elen + 1]);
        assert(seg[elen + 1] == tail[1] && tail[1] == 0x22);
        lemma_skip_ws_stop(s, i + elen + 1);
        lemma_sub_seg(s, i + elen, tail, 2, 1 + klen);
        assert(tail.subrange(2, 1 + klen) =~= escape_seq(k1) + seq![0x22u8]);
        lemma_sp_str_enc(s, i + elen + 2, k1, Seq::empty());
        assert(Seq::<u8>::empty() + k1 =~= k1);
        assert(s[i + elen + 1 + klen] == seg[elen + 1 + klen] && seg[elen + 1 + klen] == tail[1
            + klen] && tail[1 + klen] == 0x3a);
        lemma_skip_ws_stop(s, i + elen + 1 + klen);
        assert(sp_key_colon(s, i + elen + 1) == Some::<(Seq<u8>, int)>(
            (k1, i + elen + 2 + klen),
        ));
        assert(all.take(done).push((key, e)) =~= all.take(done + 1));
        lemma_sub_seg(s, i + elen, tail, 2 + klen, tail.len() as int);
        assert(tail.subrange(2 + klen, tail.len() as int) =~= enc_val(v1) + obj_tail(
            all,
            done + 2,
        ));
        lemma_run_obj(s, i + elen + 2 + klen, st, all, done + 1);
        assert(run_have(s, i + elen, st.push(PFrameV::PObj(all.take(done), key)), e)
            == run_await(s, i + elen + 2 + klen, st.push(PFrameV::PObj(all.take(done + 1), k1))));
    } else {
        assert(tail =~= seq![0x7du8]);
        assert(all.take(done).push((key, e)) =~= all);
        assert(run_have(s, i + elen, st.push(PFrameV::PObj(all.take(done), key)), e) == run_have(
            s,
            i + elen + 1,
            st,
            JsonVal::Obj(all),
        ));
    }
}

// the parser's own output shape: canonical numbers, two-way strings

/// A canonical decimal: no trailing zero digits in the mantissa, and
/// a zero mantissa keeps a zero exponent.
pub open spec fn dec_canonical(d: DecNumber) -> bool {
    (d.mantissa % 10 != 0 || d.mantissa == 0) && (d.mantissa == 0 ==> d.exp10 == 0)
}

/// The shape every parsed document has: strings made of bytes the
/// emitter can escape two ways, and canonical decimals, throughout.
pub open spec fn shape_ok(v: JsonVal) -> bool
    decreases v,
{
    match v {
        JsonVal::Str(s) => str_ok(s),
        JsonVal::Dec(d) => dec_canonical(d),
        JsonVal::Arr(items) => shape_arr(items),
        JsonVal::Obj(entries) => shape_obj(entries),
        _ => true,
    }
}

pub open spec fn shape_arr(items: Seq<JsonVal>) -> bool
    decreases items,
{
    if items.len() == 0 {
        true
    } else {
        shape_arr(items.drop_last()) && shape_ok(items.last())
    }
}

pub open spec fn shape_obj(entries: Seq<(Seq<u8>, JsonVal)>) -> bool
    decreases entries,
{
    if entries.len() == 0 {
        true
    } else {
        shape_obj(entries.drop_last()) && str_ok(entries.last().0) && shape_ok(entries.last().1)
    }
}

/// A parsed-shape document the emitter accepts is round-trippable.
proof fn lemma_shape_rt(v: JsonVal)
    requires
        shape_ok(v),
        enc_wf(v),
    ensures
        rt_wf(v),
    decreases v,
{
    match v {
        JsonVal::Arr(items) => {
            lemma_shape_rt_arr(items);
        }
        JsonVal::Obj(entries) => {
            lemma_shape_rt_obj(entries);
        }
        _ => {}
    }
}

proof fn lemma_shape_rt_arr(items: Seq<JsonVal>)
    requires
        shape_arr(items),
        crate::encode::arr_wf(items),
    ensures
        rt_arr(items),
    decreases items,
{
    if items.len() > 0 {
        lemma_shape_rt_arr(items.drop_last());
        lemma_shape_rt(items.last());
    }
}

proof fn lemma_shape_rt_obj(entries: Seq<(Seq<u8>, JsonVal)>)
    requires
        shape_obj(entries),
        crate::encode::obj_wf(entries),
    ensures
        rt_obj(entries),
    decreases entries,
{
    if entries.len() > 0 {
        lemma_shape_rt_obj(entries.drop_last());
        lemma_shape_rt(entries.last().1);
    }
}

/// Every byte a string scan delivers can be escaped both ways.
proof fn lemma_sp_str_shape(s: Seq<u8>, i: int, acc: Seq<u8>)
    requires
        0 <= i,
        str_ok(acc),
    ensures
        match sp_str(s, i, acc) {
            Some(p) => str_ok(p.0),
            None => true,
        },
    decreases s.len() - i,
{
    if 0 <= i < s.len() {
        if s[i] == 0x5c && i + 1 < s.len() && crate::decode::unescape(s[i + 1]) is Some {
            let b = crate::decode::unescape(s[i + 1]).unwrap();
            assert(rt_byte_of(b));
            assert(str_ok(acc.push(b)));
            lemma_sp_str_shape(s, i + 2, acc.push(b));
        } else if s[i] != 0x22 && s[i] >= 0x20 {
            assert(str_ok(acc.push(s[i])));
            lemma_sp_str_shape(s, i + 1, acc.push(s[i]));
        }
    }
}

/// Normalization makes the mantissa canonical and keeps it positive.
proof fn lemma_dec_norm_shape(m: u64, e: int)
    ensures
        dec_norm(m, e).0 % 10 != 0 || dec_norm(m, e).0 == 0,
        m > 0 ==> dec_norm(m, e).0 > 0,
        m == 0 ==> dec_norm(m, e) == (0u64, e),
    decreases m,
{
    if m != 0 && m % 10 == 0 {
        lemma_dec_norm_shape(m / 10, e + 1);
    }
}

/// Every decimal the number grammar finishes is canonical.
proof fn lemma_finish_shape(neg: bool, m: u64, e: int)
    ensures
        match finish_number(neg, m, e) {
            Some(d) => dec_canonical(d),
            None => true,
        },
{
    lemma_dec_norm_shape(m, e);
}

/// Every number token yields an unsigned value, a signed value, or a
/// canonical decimal.
pub open spec fn num_shape(v: JsonVal) -> bool {
    match v {
        JsonVal::Dec(d) => dec_canonical(d),
        JsonVal::UInt(_) => true,
        JsonVal::Int(_) => true,
        _ => false,
    }
}

proof fn lemma_sp_exponent_shape(s: Seq<u8>, i: int, nonneg: bool, m: u64, exp0: int)
    ensures
        match sp_exponent(s, i, nonneg, m, exp0) {
            Some(p) => num_shape(p.0),
            None => true,
        },
{
    let i1 = i + 1;
    let i2 = if byte_at(s, i1) == 0x2b || byte_at(s, i1) == 0x2d {
        i1 + 1
    } else {
        i1
    };
    if is_digit(byte_at(s, i2)) {
        let acc = crate::decode::sp_accum_exp(s, i2 + 1, (byte_at(s, i2) - 0x30) as i32);
        if !acc.2 {
            let total: int = if byte_at(s, i1) != 0x2d {
                exp0 + acc.0
            } else {
                exp0 - acc.0
            };
            lemma_finish_shape(!nonneg, m, total);
        }
    }
}

proof fn lemma_sp_decimal_shape(s: Seq<u8>, i: int, nonneg: bool, m: u64, exp0: int)
    ensures
        match crate::decode::sp_decimal(s, i, nonneg, m, exp0) {
            Some(p) => num_shape(p.0),
            None => true,
        },
{
    if is_digit(byte_at(s, i)) {
        let acc = sp_accum_frac(s, i, m, exp0);
        lemma_sp_exponent_shape(s, acc.2, nonneg, acc.0, acc.1);
        lemma_finish_shape(!nonneg, acc.0, acc.1);
    }
}

proof fn lemma_sp_number_shape(s: Seq<u8>, i: int, nonneg: bool, m: u64)
    ensures
        match sp_number(s, i, nonneg, m) {
            Some(p) => num_shape(p.0),
            None => true,
        },
{
    lemma_sp_decimal_shape(s, i + 1, nonneg, m, 0);
    lemma_sp_exponent_shape(s, i, nonneg, m, 0);
    if !(byte_at(s, i) == 0x2e || byte_at(s, i) == 0x65 || byte_at(s, i) == 0x45) {
        if !nonneg && m > 0x8000000000000000 {
            lemma_dec_norm_shape(m, 0);
        }
    }
}

proof fn lemma_sp_long_shape(s: Seq<u8>, i: int, nonneg: bool, m: u64)
    ensures
        match crate::decode::sp_long(s, i, nonneg, m) {
            Some(p) => num_shape(p.0),
            None => true,
        },
{
    let j = crate::decode::sp_skip_digits(s, i);
    let exp: int = 1 + (j - i);
    lemma_sp_decimal_shape(s, j + 1, nonneg, m, exp);
    lemma_sp_exponent_shape(s, j, nonneg, m, exp);
    lemma_finish_shape(!nonneg, m, exp);
}

proof fn lemma_sp_integer_shape(s: Seq<u8>, i: int, nonneg: bool, first: u8)
    ensures
        match sp_integer(s, i, nonneg, first) {
            Some(p) => num_shape(p.0),
            None => true,
        },
{
    lemma_sp_number_shape(s, i, nonneg, 0);
    if is_digit(first) && first != 0x30 {
        let acc = sp_accum_u64(s, i, (first - 0x30) as u64);
        lemma_sp_long_shape(s, acc.1, nonneg, acc.0);
        lemma_sp_number_shape(s, acc.1, nonneg, acc.0);
    }
}

/// Every scalar a lexical event delivers has the parsed shape.
proof fn lemma_sp_event_shape(s: Seq<u8>, i: int)
    requires
        0 <= i <= s.len(),
    ensures
        match sp_event(s, i) {
            Some(p) => match p.0 {
                SpEvent::Scalar(v) => shape_ok(v),
                _ => true,
            },
            None => true,
        },
{
    crate::decode::lemma_skip_ws_range(s, i);
    let k = skip_ws(s, i);
    if 0 <= k < s.len() {
        let b = s[k];
        if b == 0x22 {
            lemma_sp_str_shape(s, k + 1, Seq::empty());
        } else if is_digit(b) {
            lemma_sp_integer_shape(s, k + 1, true, b);
        } else if b == 0x2d && k + 1 < s.len() {
            lemma_sp_integer_shape(s, k + 2, false, s[k + 1]);
        }
    }
}

pub open spec fn frame_shape(f: PFrameV) -> bool {
    match f {
        PFrameV::PArr(items) => shape_arr(items),
        PFrameV::PObj(entries, key) => shape_obj(entries) && str_ok(key),
    }
}

pub open spec fn stack_shape(st: Seq<PFrameV>) -> bool {
    forall|k: int| 0 <= k < st.len() ==> #[trigger] frame_shape(st[k])
}

proof fn lemma_sp_key_colon_shape(s: Seq<u8>, i: int)
    requires
        0 <= i <= s.len(),
    ensures
        match sp_key_colon(s, i) {
            Some(p) => str_ok(p.0),
            None => true,
        },
{
    crate::decode::lemma_skip_ws_range(s, i);
    let k = skip_ws(s, i);
    if byte_at(s, k) == 0x22 {
        assert(str_ok(Seq::<u8>::empty()));
        lemma_sp_str_shape(s, k + 1, Seq::empty());
    }
}

/// Whatever value the machine parses from an awaited position has the
/// parser's canonical shape.
proof fn lemma_run_await_shape(s: Seq<u8>, i: int, st: Seq<PFrameV>)
    requires
        0 <= i <= s.len(),
        stack_shape(st),
    ensures
        match run_await(s, i, st) {
            Some(p) => shape_ok(p.0),
            None => true,
        },
    decreases s.len() - i, 1int,
{
    crate::decode::lemma_sp_event_range(s, i);
    lemma_sp_event_shape(s, i);
    match sp_event(s, i) {
        None => {}
        Some(p) => {
            let j = p.1;
            match p.0 {
                SpEvent::Scalar(v) => {
                    lemma_run_have_shape(s, j, st, v);
                }
                SpEvent::ArrStart => {
                    crate::decode::lemma_skip_ws_range(s, j);
                    let k = skip_ws(s, j);
                    if byte_at(s, k) == 0x5d {
                        assert(shape_ok(JsonVal::Arr(Seq::empty())));
                        lemma_run_have_shape(s, k + 1, st, JsonVal::Arr(Seq::empty()));
                    } else {
                        let st2 = st.push(PFrameV::PArr(Seq::empty()));
                        assert(stack_shape(st2)) by {
                            assert(forall|m: int|
                                0 <= m < st.len() ==> st2[m] == #[trigger] st[m]);
                            assert(frame_shape(st2[st.len() as int]));
                        }
                        lemma_run_await_shape(s, j, st2);
                    }
                }
                SpEvent::ObjStart => {
                    crate::decode::lemma_skip_ws_range(s, j);
                    let k = skip_ws(s, j);
                    if byte_at(s, k) == 0x7d {
                        assert(shape_ok(JsonVal::Obj(Seq::empty())));
                        lemma_run_have_shape(s, k + 1, st, JsonVal::Obj(Seq::empty()));
                    } else {
                        crate::decode::lemma_sp_key_colon_range(s, j);
                        lemma_sp_key_colon_shape(s, j);
                        match sp_key_colon(s, j) {
                            None => {}
                            Some(q) => {
                                let st2 = st.push(PFrameV::PObj(Seq::empty(), q.0));
                                assert(stack_shape(st2)) by {
                                    assert(forall|m: int|
                                        0 <= m < st.len() ==> st2[m] == #[trigger] st[m]);
                                    assert(frame_shape(st2[st.len() as int]));
                                }
                                lemma_run_await_shape(s, q.1, st2);
                            }
                        }
                    }
                }
            }
        }
    }
}

/// Whatever value the machine finishes with, holding a shaped value
/// over shaped layers, has the parser's canonical shape.
proof fn lemma_run_have_shape(s: Seq<u8>, i: int, st: Seq<PFrameV>, v: JsonVal)
    requires
        0 <= i <= s.len(),
        stack_shape(st),
        shape_ok(v),
    ensures
        match run_have(s, i, st, v) {
            Some(p) => shape_ok(p.0),
            None => true,
        },
    decreases s.len() - i, 0int,
{
    if st.len() > 0 {
        crate::decode::lemma_skip_ws_range(s, i);
        let k = skip_ws(s, i);
        let b = byte_at(s, k);
        assert(frame_shape(st[st.len() - 1]));
        let rest = st.drop_last();
        assert(stack_shape(rest)) by {
            assert(forall|m: int| 0 <= m < rest.len() ==> rest[m] == #[trigger] st[m]);
        }
        if b == 0x2c {
            match st.last() {
                PFrameV::PArr(items) => {
                    let st2 = rest.push(PFrameV::PArr(items.push(v)));
                    assert(items.push(v).drop_last() =~= items);
                    assert(stack_shape(st2)) by {
                        assert(forall|m: int|
                            0 <= m < rest.len() ==> st2[m] == #[trigger] rest[m]);
                        assert(frame_shape(st2[rest.len() as int]));
                    }
                    lemma_run_await_shape(s, k + 1, st2);
                }
                PFrameV::PObj(entries, key) => {
                    crate::decode::lemma_sp_key_colon_range(s, k + 1);
                    lemma_sp_key_colon_shape(s, k + 1);
                    match sp_key_colon(s, k + 1) {
                        None => {}
                        Some(q) => {
                            let st2 = rest.push(
                                PFrameV::PObj(entries.push((key, v)), q.0),
                            );
                            assert(entries.push((key, v)).drop_last() =~= entries);
                            assert(stack_shape(st2)) by {
                                assert(forall|m: int|
                                    0 <= m < rest.len() ==> st2[m] == #[trigger] rest[m]);
                                assert(frame_shape(st2[rest.len() as int]));
                            }
                            lemma_run_await_shape(s, q.1, st2);
                        }
                    }
                }
            }
        } else if b == 0x5d {
            match st.last() {
                PFrameV::PArr(items) => {
                    assert(items.push(v).drop_last() =~= items);
                    assert(shape_ok(JsonVal::Arr(items.push(v))));
                    lemma_run_have_shape(s, k + 1, rest, JsonVal::Arr(items.push(v)));
                }
                PFrameV::PObj(_, _) => {}
            }
        } else if b == 0x7d {
            match st.last() {
                PFrameV::PObj(entries, key) => {
                    assert(entries.push((key, v)).drop_last() =~= entries);
                    assert(shape_ok(JsonVal::Obj(entries.push((key, v)))));
                    lemma_run_have_shape(s, k + 1, rest, JsonVal::Obj(entries.push((key, v))));
                }
                PFrameV::PArr(_) => {}
            }
        }
    }
}

/// Law: every document the parser yields has the canonical shape —
/// two-way-renderable strings and normalized decimals throughout.
pub proof fn lemma_parse_shape(s: Seq<u8>)
    ensures
        match spec_parse(s) {
            Some(v) => shape_ok(v),
            None => true,
        },
{
    assert(stack_shape(Seq::<PFrameV>::empty()));
    lemma_run_await_shape(s, 0, Seq::empty());
}

/// Law: the codec round trip. Parsing the rendering of a well-formed
/// canonical document yields exactly that document.
pub proof fn lemma_round_trip(v: JsonVal)
    requires
        rt_wf(v),
        enc_wf(v),
    ensures
        spec_parse(enc_val(v)) == Some(v),
{
    let s = enc_val(v);
    assert(s.subrange(0, s.len() as int) =~= s);
    assert(byte_at(s, s.len() as int) == 0);
    lemma_run_enc(s, 0, Seq::empty(), v);
    assert(run_have(s, s.len() as int, Seq::empty(), v) == Some::<(JsonVal, int)>(
        (v, s.len() as int),
    ));
}

/// Law: re-serializing any parsed document and parsing again yields
/// the document back, whenever its numeric components are
/// representable — every decimal two-decimal renderable ([`enc_wf`];
/// `10.125` names an input outside that bound, reading back as a
/// decimal no two-digit fraction can render).
pub proof fn lemma_reparse(s: Seq<u8>, v: JsonVal)
    requires
        spec_parse(s) == Some(v),
        enc_wf(v),
    ensures
        spec_parse(enc_val(v)) == Some(v),
{
    lemma_parse_shape(s);
    lemma_shape_rt(v);
    lemma_round_trip(v);
}

} // verus!
