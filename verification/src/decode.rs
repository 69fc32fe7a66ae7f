//! JSON parsing.
//!
//! The grammar is fixed by a family of specification functions, written
//! in the same small steps the executable code takes: [`skip_ws`] and
//! [`byte_at`] for scanning, [`sp_str`] for quoted strings, the
//! `sp_*` number functions for the integer/decimal/exponent grammar,
//! and [`run_await`]/[`run_have`] for the document machine that drives
//! them. [`parse_json`] is the executable parser: non-recursive, one
//! explicit frame stack, proved to return exactly what [`spec_parse`]
//! says for every byte string.
//!
//! Number policy: digits accumulate into an unsigned 64-bit mantissa;
//! a value that overflows it, or carries a fraction or exponent,
//! becomes an exact scaled decimal ([`DecNumber`]), brought to
//! canonical form (no trailing zero digits in the mantissa). A
//! magnitude of `10^309` or more is a hard error, as is an explicit
//! exponent overflowing a signed 32-bit counter with a nonzero
//! mantissa; an underflowing exponent collapses to signed zero.
//!
//! Escape policy: the seven short escapes are recognized, `\uXXXX` is
//! not; an unescaped byte below 0x20 inside a string is an error.

use vstd::prelude::*;

use crate::json::{DecNumber, JsonNode, JsonVal};

verus! {

broadcast use vstd::std_specs::vec::group_vec_axioms, vstd::seq::group_seq_axioms;

/// Decoding failure. Like the wire format itself, it carries no
/// detail: every malformed document is rejected the same way.
#[derive(Clone, Copy, PartialEq, Eq, Structural, Debug)]
pub struct JsonError;

/// The whitespace bytes the grammar skips between tokens.
pub open spec fn is_ws(b: u8) -> bool {
    b == 0x20 || b == 0x0a || b == 0x09 || b == 0x0d
}

/// ASCII decimal digit.
pub open spec fn is_digit(b: u8) -> bool {
    0x30 <= b <= 0x39
}

/// The byte at `j`, or zero past the end (the scanner's end marker).
pub open spec fn byte_at(s: Seq<u8>, j: int) -> u8 {
    if 0 <= j < s.len() {
        s[j]
    } else {
        0
    }
}

/// First position at or after `i` holding a non-whitespace byte.
pub open spec fn skip_ws(s: Seq<u8>, i: int) -> int
    decreases s.len() - i,
{
    if i < 0 {
        i
    } else if i >= s.len() {
        s.len() as int
    } else if is_ws(s[i]) {
        skip_ws(s, i + 1)
    } else {
        i
    }
}

pub proof fn lemma_skip_ws_range(s: Seq<u8>, i: int)
    requires
        0 <= i <= s.len(),
    ensures
        i <= skip_ws(s, i) <= s.len(),
    decreases s.len() - i,
{
    if i < s.len() && is_ws(s[i]) {
        lemma_skip_ws_range(s, i + 1);
    }
}

/// The byte a recognized backslash escape stands for, if any.
pub open spec fn unescape(b: u8) -> Option<u8> {
    if b == 0x22 {
        Some(0x22u8)
    } else if b == 0x5c {
        Some(0x5cu8)
    } else if b == 0x2f {
        Some(0x2fu8)
    } else if b == 0x62 {
        Some(0x08u8)
    } else if b == 0x66 {
        Some(0x0cu8)
    } else if b == 0x6e {
        Some(0x0au8)
    } else if b == 0x72 {
        Some(0x0du8)
    } else if b == 0x74 {
        Some(0x09u8)
    } else {
        None
    }
}

/// String body scan, entered just after the opening quote with the
/// bytes unescaped so far. Yields the content and the position after
/// the closing quote. Fails on end of input, on an unescaped control
/// byte, and on an unrecognized escape.
pub open spec fn sp_str(s: Seq<u8>, i: int, acc: Seq<u8>) -> Option<(Seq<u8>, int)>
    decreases s.len() - i,
{
    if i < 0 || i >= s.len() {
        None
    } else if s[i] == 0x22 {
        Some((acc, i + 1))
    } else if s[i] == 0x5c {
        if i + 1 >= s.len() {
            None
        } else {
            match unescape(s[i + 1]) {
                Some(b) => sp_str(s, i + 2, acc.push(b)),
                None => None,
            }
        }
    } else if s[i] < 0x20 {
        None
    } else {
        sp_str(s, i + 1, acc.push(s[i]))
    }
}

// range facts about the token functions, needed both for the machine's
// termination and for the executable parser's position arithmetic

pub proof fn lemma_sp_str_range(s: Seq<u8>, i: int, acc: Seq<u8>)
    requires
        0 <= i,
    ensures
        match sp_str(s, i, acc) {
            Some(p) => i < p.1 <= s.len(),
            None => true,
        },
    decreases s.len() - i,
{
    if 0 <= i < s.len() {
        if s[i] == 0x5c && i + 1 < s.len() && unescape(s[i + 1]) is Some {
            lemma_sp_str_range(s, i + 2, acc.push(unescape(s[i + 1]).unwrap()));
        } else if s[i] != 0x22 && s[i] >= 0x20 {
            lemma_sp_str_range(s, i + 1, acc.push(s[i]));
        }
    }
}

proof fn lemma_sp_skip_digits_range(s: Seq<u8>, i: int)
    requires
        0 <= i <= s.len(),
    ensures
        i <= sp_skip_digits(s, i) <= s.len(),
    decreases s.len() - i,
{
    if i < s.len() && is_digit(s[i]) {
        lemma_sp_skip_digits_range(s, i + 1);
    }
}

proof fn lemma_sp_accum_u64_range(s: Seq<u8>, i: int, m: u64)
    requires
        0 <= i <= s.len(),
    ensures
        i <= sp_accum_u64(s, i, m).1 <= s.len(),
    decreases s.len() - i,
{
    if i < s.len() && is_digit(s[i]) {
        let d = (s[i] - 0x30) as u64;
        if !(m > 1844674407370955161 || (m == 1844674407370955161 && d > 5)) {
            lemma_sp_accum_u64_range(s, i + 1, (m * 10 + d) as u64);
        }
    }
}

proof fn lemma_sp_accum_frac_range(s: Seq<u8>, i: int, m: u64, exp: int)
    requires
        0 <= i <= s.len(),
    ensures
        i <= sp_accum_frac(s, i, m, exp).2 <= s.len(),
    decreases s.len() - i,
{
    if i < s.len() && is_digit(s[i]) {
        let d = (s[i] - 0x30) as u64;
        if m > 1844674407370955161 || (m == 1844674407370955161 && d > 5) {
            lemma_sp_skip_digits_range(s, i + 1);
        } else {
            lemma_sp_accum_frac_range(s, i + 1, (m * 10 + d) as u64, exp - 1);
        }
    }
}

proof fn lemma_sp_accum_exp_range(s: Seq<u8>, i: int, e: i32)
    requires
        0 <= i <= s.len(),
    ensures
        i <= sp_accum_exp(s, i, e).1 <= s.len(),
    decreases s.len() - i,
{
    if i < s.len() && is_digit(s[i]) {
        let d = (s[i] - 0x30) as i32;
        if e > 214748364 || (e == 214748364 && d > 7) {
            lemma_sp_skip_digits_range(s, i + 1);
        } else {
            lemma_sp_accum_exp_range(s, i + 1, (e * 10 + d) as i32);
        }
    }
}

proof fn lemma_sp_exponent_range(s: Seq<u8>, i: int, nonneg: bool, m: u64, exp0: int)
    requires
        0 <= i <= s.len(),
    ensures
        match sp_exponent(s, i, nonneg, m, exp0) {
            Some(p) => i < p.1 <= s.len(),
            None => true,
        },
{
    let i1 = i + 1;
    let i2 = if byte_at(s, i1) == 0x2b || byte_at(s, i1) == 0x2d {
        i1 + 1
    } else {
        i1
    };
    if is_digit(byte_at(s, i2)) {
        lemma_sp_accum_exp_range(s, i2 + 1, (byte_at(s, i2) - 0x30) as i32);
    }
}

proof fn lemma_sp_decimal_range(s: Seq<u8>, i: int, nonneg: bool, m: u64, exp0: int)
    requires
        0 <= i <= s.len(),
    ensures
        match sp_decimal(s, i, nonneg, m, exp0) {
            Some(p) => i <= p.1 <= s.len(),
            None => true,
        },
{
    if is_digit(byte_at(s, i)) {
        lemma_sp_accum_frac_range(s, i, m, exp0);
        let acc = sp_accum_frac(s, i, m, exp0);
        lemma_sp_exponent_range(s, acc.2, nonneg, acc.0, acc.1);
    }
}

proof fn lemma_sp_number_range(s: Seq<u8>, i: int, nonneg: bool, m: u64)
    requires
        0 <= i <= s.len(),
    ensures
        match sp_number(s, i, nonneg, m) {
            Some(p) => i <= p.1 <= s.len(),
            None => true,
        },
{
    if byte_at(s, i) == 0x2e {
        lemma_sp_decimal_range(s, i + 1, nonneg, m, 0);
    } else if byte_at(s, i) == 0x65 || byte_at(s, i) == 0x45 {
        lemma_sp_exponent_range(s, i, nonneg, m, 0);
    }
}

proof fn lemma_sp_long_range(s: Seq<u8>, i: int, nonneg: bool, m: u64)
    requires
        0 <= i <= s.len(),
    ensures
        match sp_long(s, i, nonneg, m) {
            Some(p) => i <= p.1 <= s.len(),
            None => true,
        },
{
    lemma_sp_skip_digits_range(s, i);
    let j = sp_skip_digits(s, i);
    let exp: int = 1 + (j - i);
    if byte_at(s, j) == 0x2e {
        lemma_sp_decimal_range(s, j + 1, nonneg, m, exp);
    } else if byte_at(s, j) == 0x65 || byte_at(s, j) == 0x45 {
        lemma_sp_exponent_range(s, j, nonneg, m, exp);
    }
}

proof fn lemma_sp_integer_range(s: Seq<u8>, i: int, nonneg: bool, first: u8)
    requires
        0 <= i <= s.len(),
    ensures
        match sp_integer(s, i, nonneg, first) {
            Some(p) => i <= p.1 <= s.len(),
            None => true,
        },
{
    if is_digit(first) {
        if first == 0x30 {
            lemma_sp_number_range(s, i, nonneg, 0);
        } else {
            lemma_sp_accum_u64_range(s, i, (first - 0x30) as u64);
            let acc = sp_accum_u64(s, i, (first - 0x30) as u64);
            lemma_sp_long_range(s, acc.1, nonneg, acc.0);
            lemma_sp_number_range(s, acc.1, nonneg, acc.0);
        }
    }
}

/// What one lexical step at a token boundary yields: a complete
/// scalar value, or the opening of an array or object.
pub enum SpEvent {
    Scalar(JsonVal),
    ArrStart,
    ObjStart,
}

/// The next token from `i0`: leading whitespace, then one scalar
/// token or an opening bracket. Yields the event and the position
/// after the token.
pub open spec fn sp_event(s: Seq<u8>, i0: int) -> Option<(SpEvent, int)> {
    let i = skip_ws(s, i0);
    if i >= s.len() {
        None
    } else {
        let b = s[i];
        if b == 0x22 {
            match sp_str(s, i + 1, Seq::empty()) {
                Some(p) => Some((SpEvent::Scalar(JsonVal::Str(p.0)), p.1)),
                None => None,
            }
        } else if is_digit(b) {
            match sp_integer(s, i + 1, true, b) {
                Some(p) => Some((SpEvent::Scalar(p.0), p.1)),
                None => None,
            }
        } else if b == 0x2d {
            if i + 1 >= s.len() {
                None
            } else {
                match sp_integer(s, i + 2, false, s[i + 1]) {
                    Some(p) => Some((SpEvent::Scalar(p.0), p.1)),
                    None => None,
                }
            }
        } else if b == 0x7b {
            Some((SpEvent::ObjStart, i + 1))
        } else if b == 0x5b {
            Some((SpEvent::ArrStart, i + 1))
        } else if b == 0x6e {
            if byte_at(s, i + 1) == 0x75 && byte_at(s, i + 2) == 0x6c && byte_at(s, i + 3)
                == 0x6c {
                Some((SpEvent::Scalar(JsonVal::Null), i + 4))
            } else {
                None
            }
        } else if b == 0x74 {
            if byte_at(s, i + 1) == 0x72 && byte_at(s, i + 2) == 0x75 && byte_at(s, i + 3)
                == 0x65 {
                Some((SpEvent::Scalar(JsonVal::Bool(true)), i + 4))
            } else {
                None
            }
        } else if b == 0x66 {
            if byte_at(s, i + 1) == 0x61 && byte_at(s, i + 2) == 0x6c && byte_at(s, i + 3)
                == 0x73 && byte_at(s, i + 4) == 0x65 {
                Some((SpEvent::Scalar(JsonVal::Bool(false)), i + 5))
            } else {
                None
            }
        } else {
            None
        }
    }
}

pub proof fn lemma_sp_event_range(s: Seq<u8>, i0: int)
    requires
        0 <= i0 <= s.len(),
    ensures
        match sp_event(s, i0) {
            Some(p) => i0 < p.1 <= s.len(),
            None => true,
        },
{
    lemma_skip_ws_range(s, i0);
    let i = skip_ws(s, i0);
    if i < s.len() {
        let b = s[i];
        if b == 0x22 {
            lemma_sp_str_range(s, i + 1, Seq::empty());
        } else if is_digit(b) {
            lemma_sp_integer_range(s, i + 1, true, b);
        } else if b == 0x2d && i + 1 < s.len() {
            lemma_sp_integer_range(s, i + 2, false, s[i + 1]);
        }
    }
}

/// An object key at `i`: whitespace, a quoted string, whitespace and
/// a colon. Yields the key and the position after the colon.
pub open spec fn sp_key_colon(s: Seq<u8>, i: int) -> Option<(Seq<u8>, int)> {
    let k = skip_ws(s, i);
    if byte_at(s, k) != 0x22 {
        None
    } else {
        match sp_str(s, k + 1, Seq::empty()) {
            None => None,
            Some(q) => {
                let c = skip_ws(s, q.1);
                if byte_at(s, c) != 0x3a {
                    None
                } else {
                    Some((q.0, c + 1))
                }
            }
        }
    }
}

pub proof fn lemma_sp_key_colon_range(s: Seq<u8>, i: int)
    requires
        0 <= i <= s.len(),
    ensures
        match sp_key_colon(s, i) {
            Some(p) => i < p.1 <= s.len(),
            None => true,
        },
{
    lemma_skip_ws_range(s, i);
    let k = skip_ws(s, i);
    if byte_at(s, k) == 0x22 {
        lemma_sp_str_range(s, k + 1, Seq::empty());
        match sp_str(s, k + 1, Seq::empty()) {
            None => {}
            Some(q) => {
                lemma_skip_ws_range(s, q.1);
            }
        }
    }
}

/// A suspended enclosing layer of the parse machine: an array with
/// the elements read so far, or an object with the entries read so
/// far and the key whose value is under way.
pub enum PFrameV {
    PArr(Seq<JsonVal>),
    PObj(Seq<(Seq<u8>, JsonVal)>, Seq<u8>),
}

/// The machine about to read one value at `i`, under the given layer
/// stack. Containers push a layer and recurse; scalars hand their
/// value to [`run_have`].
pub open spec fn run_await(s: Seq<u8>, i: int, st: Seq<PFrameV>) -> Option<(JsonVal, int)>
    decreases s.len() - i,
        when 0 <= i <= s.len()
        via run_await_dec
{
    match sp_event(s, i) {
        None => None,
        Some(p) => {
            let j = p.1;
            match p.0 {
                SpEvent::Scalar(v) => run_have(s, j, st, v),
                SpEvent::ArrStart => {
                    let k = skip_ws(s, j);
                    if byte_at(s, k) == 0x5d {
                        run_have(s, k + 1, st, JsonVal::Arr(Seq::empty()))
                    } else {
                        run_await(s, j, st.push(PFrameV::PArr(Seq::empty())))
                    }
                }
                SpEvent::ObjStart => {
                    let k = skip_ws(s, j);
                    if byte_at(s, k) == 0x7d {
                        run_have(s, k + 1, st, JsonVal::Obj(Seq::empty()))
                    } else {
                        match sp_key_colon(s, j) {
                            None => None,
                            Some(q) => run_await(
                                s,
                                q.1,
                                st.push(PFrameV::PObj(Seq::empty(), q.0)),
                            ),
                        }
                    }
                }
            }
        }
    }
}

/// The machine holding a complete value at `i`: with no layer left it
/// demands trailing whitespace only; otherwise a comma continues the
/// open layer and a matching bracket closes it. Anything else — in
/// particular a bracket of the wrong kind — is an error.
pub open spec fn run_have(s: Seq<u8>, i: int, st: Seq<PFrameV>, v: JsonVal) -> Option<
    (JsonVal, int),
>
    decreases s.len() - i,
        when 0 <= i <= s.len()
        via run_have_dec
{
    if st.len() == 0 {
        if skip_ws(s, i) == s.len() {
            Some((v, s.len() as int))
        } else {
            None
        }
    } else {
        let k = skip_ws(s, i);
        let b = byte_at(s, k);
        if b == 0x2c {
            match st.last() {
                PFrameV::PArr(items) => run_await(
                    s,
                    k + 1,
                    st.drop_last().push(PFrameV::PArr(items.push(v))),
                ),
                PFrameV::PObj(entries, key) => {
                    match sp_key_colon(s, k + 1) {
                        None => None,
                        Some(q) => run_await(
                            s,
                            q.1,
                            st.drop_last().push(PFrameV::PObj(entries.push((key, v)), q.0)),
                        ),
                    }
                }
            }
        } else if b == 0x5d {
            match st.last() {
                PFrameV::PArr(items) => run_have(
                    s,
                    k + 1,
                    st.drop_last(),
                    JsonVal::Arr(items.push(v)),
                ),
                PFrameV::PObj(_, _) => None,
            }
        } else if b == 0x7d {
            match st.last() {
                PFrameV::PObj(entries, key) => run_have(
                    s,
                    k + 1,
                    st.drop_last(),
                    JsonVal::Obj(entries.push((key, v))),
                ),
                PFrameV::PArr(_) => None,
            }
        } else {
            None
        }
    }
}

#[via_fn]
proof fn run_await_dec(s: Seq<u8>, i: int, st: Seq<PFrameV>) {
    lemma_sp_event_range(s, i);
    match sp_event(s, i) {
        None => {}
        Some(p) => {
            lemma_skip_ws_range(s, p.1);
            lemma_sp_key_colon_range(s, p.1);
        }
    }
}

#[via_fn]
proof fn run_have_dec(s: Seq<u8>, i: int, st: Seq<PFrameV>, v: JsonVal) {
    lemma_skip_ws_range(s, i);
    let k = skip_ws(s, i);
    if k + 1 <= s.len() {
        lemma_sp_key_colon_range(s, k + 1);
    }
}

/// The value a byte string holds: one JSON document, nothing but
/// whitespace around it.
pub open spec fn spec_parse(s: Seq<u8>) -> Option<JsonVal> {
    match run_await(s, 0, Seq::empty()) {
        Some(p) => Some(p.0),
        None => None,
    }
}

/// Skips whitespace from `i`; returns the next token position.
fn skip_ws_exec(s: &Vec<u8>, i: usize) -> (j: usize)
    requires
        i <= s@.len(),
    ensures
        j == skip_ws(s@, i as int),
        i <= j <= s@.len(),
{
    let len: usize = s.len();
    let mut j: usize = i;
    while j < len && (s[j] == 0x20 || s[j] == 0x0a || s[j] == 0x09 || s[j] == 0x0d)
        invariant
            i <= j <= len,
            len == s@.len(),
            skip_ws(s@, i as int) == skip_ws(s@, j as int),
        decreases len - j,
    {
        j = j + 1;
    }
    j
}

/// Reads a string body starting just after the opening quote; returns
/// the unescaped content and the position after the closing quote.
fn parse_str_exec(s: &Vec<u8>, i: usize) -> (r: Result<(Vec<u8>, usize), JsonError>)
    requires
        i <= s@.len(),
    ensures
        match r {
            Ok(p) => sp_str(s@, i as int, Seq::empty()) == Some((p.0@, p.1 as int)) && p.1
                <= s@.len(),
            Err(_) => sp_str(s@, i as int, Seq::empty()) is None,
        },
{
    let len: usize = s.len();
    let mut acc: Vec<u8> = Vec::new();
    let mut j: usize = i;
    loop
        invariant
            i <= j <= len,
            len == s@.len(),
            sp_str(s@, i as int, Seq::empty()) == sp_str(s@, j as int, acc@),
        decreases len - j,
    {
        if j >= len {
            return Err(JsonError);
        }
        let b: u8 = s[j];
        if b == 0x22 {
            return Ok((acc, j + 1));
        } else if b == 0x5c {
            if j + 1 >= len {
                return Err(JsonError);
            }
            match unescape_exec(s[j + 1]) {
                Some(u) => {
                    acc.push(u);
                    j = j + 2;
                }
                None => {
                    return Err(JsonError);
                }
            }
        } else if b < 0x20 {
            return Err(JsonError);
        } else {
            acc.push(b);
            j = j + 1;
        }
    }
}

/// First position at or after `i` holding a non-digit byte.
pub open spec fn sp_skip_digits(s: Seq<u8>, i: int) -> int
    decreases s.len() - i,
{
    if i < 0 || i >= s.len() || !is_digit(s[i]) {
        i
    } else {
        sp_skip_digits(s, i + 1)
    }
}

/// Digit accumulation into an unsigned 64-bit mantissa. Stops at the
/// first non-digit, or at the first digit that would overflow; that
/// digit is consumed and the overflow flag raised.
pub open spec fn sp_accum_u64(s: Seq<u8>, i: int, m: u64) -> (u64, int, bool)
    decreases s.len() - i,
{
    if i < 0 || i >= s.len() || !is_digit(s[i]) {
        (m, i, false)
    } else {
        let d = (s[i] - 0x30) as u64;
        if m > 1844674407370955161 || (m == 1844674407370955161 && d > 5) {
            (m, i + 1, true)
        } else {
            sp_accum_u64(s, i + 1, (m * 10 + d) as u64)
        }
    }
}

/// Fraction-digit accumulation: each digit scales the mantissa and
/// lowers the exponent; on mantissa overflow the remaining digits are
/// consumed and dropped.
pub open spec fn sp_accum_frac(s: Seq<u8>, i: int, m: u64, exp: int) -> (u64, int, int)
    decreases s.len() - i,
{
    if i < 0 || i >= s.len() || !is_digit(s[i]) {
        (m, exp, i)
    } else {
        let d = (s[i] - 0x30) as u64;
        if m > 1844674407370955161 || (m == 1844674407370955161 && d > 5) {
            (m, exp, sp_skip_digits(s, i + 1))
        } else {
            sp_accum_frac(s, i + 1, (m * 10 + d) as u64, exp - 1)
        }
    }
}

/// Explicit-exponent digit accumulation into a signed 32-bit counter,
/// with the overflow flag raised as the mantissa counter does it.
pub open spec fn sp_accum_exp(s: Seq<u8>, i: int, e: i32) -> (i32, int, bool)
    decreases s.len() - i,
{
    if i < 0 || i >= s.len() || !is_digit(s[i]) {
        (e, i, false)
    } else {
        let d = (s[i] - 0x30) as i32;
        if e > 214748364 || (e == 214748364 && d > 7) {
            (e, sp_skip_digits(s, i + 1), true)
        } else {
            sp_accum_exp(s, i + 1, (e * 10 + d) as i32)
        }
    }
}

/// Number of decimal digits of `n`.
pub open spec fn n_digits(n: nat) -> nat
    decreases n,
{
    if n < 10 {
        1
    } else {
        1 + n_digits(n / 10)
    }
}

/// Canonical form of a scaled decimal: trailing zero digits move from
/// the mantissa into the exponent.
pub open spec fn dec_norm(m: u64, exp: int) -> (u64, int)
    decreases m,
{
    if m == 0 || m % 10 != 0 {
        (m, exp)
    } else {
        dec_norm(m / 10, exp + 1)
    }
}

/// Builds the decimal a number token denotes, in canonical form.
///
/// A magnitude of `10^309` or more is rejected (it exceeds what any
/// receiver of this wire format can hold); an exponent below the
/// signed 32-bit range collapses to signed zero, the number being
/// negligibly small.
pub open spec fn finish_number(neg: bool, m: u64, exp: int) -> Option<DecNumber> {
    if m == 0 {
        Some(DecNumber { neg, mantissa: 0, exp10: 0 })
    } else {
        let nm = dec_norm(m, exp);
        if n_digits(nm.0 as nat) + nm.1 > 309 {
            None
        } else if nm.1 < -2147483648 {
            Some(DecNumber { neg, mantissa: 0, exp10: 0 })
        } else {
            Some(DecNumber { neg, mantissa: nm.0, exp10: nm.1 as i32 })
        }
    }
}

/// Wraps [`finish_number`] as a parse outcome at position `j`.
pub open spec fn wrap_finish(neg: bool, m: u64, exp: int, j: int) -> Option<(JsonVal, int)> {
    match finish_number(neg, m, exp) {
        Some(d) => Some((JsonVal::Dec(d), j)),
        None => None,
    }
}

/// The value of an integer token with no fraction and no exponent: a
/// plain unsigned value (a signed zero collapses to it), a signed
/// 64-bit value for negatives in range, and a canonical decimal for a
/// negative magnitude beyond it.
pub open spec fn int_event(nonneg: bool, m: u64) -> JsonVal {
    if nonneg || m == 0 {
        JsonVal::UInt(m)
    } else if m <= 0x8000000000000000 {
        JsonVal::Int((-(m as int)) as i64)
    } else {
        let nm = dec_norm(m, 0);
        JsonVal::Dec(DecNumber { neg: true, mantissa: nm.0, exp10: nm.1 as i32 })
    }
}

/// Continuation after the integer digits: a dot opens the fraction,
/// `e`/`E` the exponent, anything else ends the token.
pub open spec fn sp_number(s: Seq<u8>, i: int, nonneg: bool, m: u64) -> Option<(JsonVal, int)> {
    if byte_at(s, i) == 0x2e {
        sp_decimal(s, i + 1, nonneg, m, 0)
    } else if byte_at(s, i) == 0x65 || byte_at(s, i) == 0x45 {
        sp_exponent(s, i, nonneg, m, 0)
    } else {
        Some((int_event(nonneg, m), i))
    }
}

/// Continuation after mantissa overflow in the integer part: the
/// remaining digits only raise the exponent.
pub open spec fn sp_long(s: Seq<u8>, i: int, nonneg: bool, m: u64) -> Option<(JsonVal, int)> {
    let j = sp_skip_digits(s, i);
    let exp: int = 1 + (j - i);
    if byte_at(s, j) == 0x2e {
        sp_decimal(s, j + 1, nonneg, m, exp)
    } else if byte_at(s, j) == 0x65 || byte_at(s, j) == 0x45 {
        sp_exponent(s, j, nonneg, m, exp)
    } else {
        wrap_finish(!nonneg, m, exp, j)
    }
}

/// The fraction part, entered just after the dot; at least one digit
/// is required.
pub open spec fn sp_decimal(s: Seq<u8>, i: int, nonneg: bool, m: u64, exp0: int) -> Option<
    (JsonVal, int),
> {
    if !is_digit(byte_at(s, i)) {
        None
    } else {
        let acc = sp_accum_frac(s, i, m, exp0);
        if byte_at(s, acc.2) == 0x65 || byte_at(s, acc.2) == 0x45 {
            sp_exponent(s, acc.2, nonneg, acc.0, acc.1)
        } else {
            wrap_finish(!nonneg, acc.0, acc.1, acc.2)
        }
    }
}

/// The explicit exponent, entered at the `e`/`E` byte. An overflowing
/// exponent is a hard error with a nonzero mantissa and a positive
/// sign, and signed zero otherwise.
pub open spec fn sp_exponent(s: Seq<u8>, i: int, nonneg: bool, m: u64, exp0: int) -> Option<
    (JsonVal, int),
> {
    let i1 = i + 1;
    let pos_sign = byte_at(s, i1) != 0x2d;
    let i2 = if byte_at(s, i1) == 0x2b || byte_at(s, i1) == 0x2d {
        i1 + 1
    } else {
        i1
    };
    let first = byte_at(s, i2);
    if !is_digit(first) {
        None
    } else {
        let acc = sp_accum_exp(s, i2 + 1, (first - 0x30) as i32);
        if acc.2 {
            if m != 0 && pos_sign {
                None
            } else {
                Some((JsonVal::Dec(DecNumber { neg: !nonneg, mantissa: 0, exp10: 0 }), acc.1))
            }
        } else {
            let total: int = if pos_sign {
                exp0 + acc.0
            } else {
                exp0 - acc.0
            };
            wrap_finish(!nonneg, m, total, acc.1)
        }
    }
}

/// A whole number token: sign already seen, first digit in hand.
/// A leading zero admits no second digit.
pub open spec fn sp_integer(s: Seq<u8>, i: int, nonneg: bool, first: u8) -> Option<
    (JsonVal, int),
> {
    if !is_digit(first) {
        None
    } else if first == 0x30 {
        if is_digit(byte_at(s, i)) {
            None
        } else {
            sp_number(s, i, nonneg, 0)
        }
    } else {
        let acc = sp_accum_u64(s, i, (first - 0x30) as u64);
        if acc.2 {
            sp_long(s, acc.1, nonneg, acc.0)
        } else {
            sp_number(s, acc.1, nonneg, acc.0)
        }
    }
}

pub proof fn lemma_pow10_20()
    ensures
        crate::encode::pow10(20) == 100000000000000000000,
{
    reveal_with_fuel(crate::encode::pow10, 21);
}

proof fn lemma_n_digits_bound(n: nat, k: nat)
    requires
        k >= 1,
        n < crate::encode::pow10(k),
    ensures
        n_digits(n) <= k,
    decreases k,
{
    if n >= 10 {
        assert(crate::encode::pow10(k) == 10 * crate::encode::pow10((k - 1) as nat));
        assert(n / 10 < crate::encode::pow10((k - 1) as nat)) by (nonlinear_arith)
            requires
                n < 10 * crate::encode::pow10((k - 1) as nat),
        ;
        lemma_n_digits_bound(n / 10, (k - 1) as nat);
    }
}

pub proof fn lemma_n_digits_u64(n: u64)
    ensures
        1 <= n_digits(n as nat) <= 20,
{
    lemma_pow10_20();
    lemma_n_digits_bound(n as nat, 20);
}

proof fn lemma_dec_norm_bounds(m: u64, exp: int)
    ensures
        exp <= dec_norm(m, exp).1 <= exp + 19,
        dec_norm(m, exp).0 <= m,
        n_digits(dec_norm(m, exp).0 as nat) + dec_norm(m, exp).1 == n_digits(m as nat) + exp
            || m == 0,
    decreases m,
{
    if m != 0 && m % 10 == 0 {
        lemma_dec_norm_bounds(m / 10, exp + 1);
        lemma_n_digits_u64(m);
    } else {
        lemma_n_digits_u64(m);
    }
}

/// Skips a run of digits.
fn skip_digits_exec(s: &Vec<u8>, i: usize) -> (j: usize)
    requires
        i <= s@.len(),
    ensures
        j as int == sp_skip_digits(s@, i as int),
        i <= j <= s@.len(),
{
    let len: usize = s.len();
    let mut j: usize = i;
    while j < len && 0x30 <= s[j] && s[j] <= 0x39
        invariant
            i <= j <= len,
            len == s@.len(),
            sp_skip_digits(s@, i as int) == sp_skip_digits(s@, j as int),
        decreases len - j,
    {
        j = j + 1;
    }
    j
}

/// Accumulates integer digits into a 64-bit mantissa.
fn accum_u64_exec(s: &Vec<u8>, i: usize, m0: u64) -> (r: (u64, usize, bool))
    requires
        i <= s@.len(),
    ensures
        sp_accum_u64(s@, i as int, m0) == (r.0, r.1 as int, r.2),
        r.1 <= s@.len(),
{
    let len: usize = s.len();
    let mut j: usize = i;
    let mut m: u64 = m0;
    loop
        invariant
            i <= j <= len,
            len == s@.len(),
            sp_accum_u64(s@, i as int, m0) == sp_accum_u64(s@, j as int, m),
        decreases len - j,
    {
        if j >= len {
            return (m, j, false);
        }
        let b: u8 = s[j];
        if !(0x30 <= b && b <= 0x39) {
            return (m, j, false);
        }
        let d: u64 = (b - 0x30) as u64;
        if m > 1844674407370955161 || (m == 1844674407370955161 && d > 5) {
            return (m, j + 1, true);
        }
        m = m * 10 + d;
        j = j + 1;
    }
}

/// Accumulates fraction digits, lowering the exponent per digit.
fn accum_frac_exec(s: &Vec<u8>, i: usize, m0: u64, exp0: i128) -> (r: (u64, i128, usize))
    requires
        i <= s@.len(),
        -36893488147419103232i128 <= exp0 <= 36893488147419103232i128,
    ensures
        sp_accum_frac(s@, i as int, m0, exp0 as int) == (r.0, r.1 as int, r.2 as int),
        r.2 <= s@.len(),
        exp0 as int - s@.len() <= r.1 as int <= exp0 as int,
{
    let len: usize = s.len();
    let mut j: usize = i;
    let mut m: u64 = m0;
    let mut exp: i128 = exp0;
    loop
        invariant
            i <= j <= len,
            len == s@.len(),
            -36893488147419103232i128 <= exp0 <= 36893488147419103232i128,
            exp0 - (j - i) <= exp <= exp0,
            sp_accum_frac(s@, i as int, m0, exp0 as int) == sp_accum_frac(
                s@,
                j as int,
                m,
                exp as int,
            ),
        decreases len - j,
    {
        if j >= len {
            return (m, exp, j);
        }
        let b: u8 = s[j];
        if !(0x30 <= b && b <= 0x39) {
            return (m, exp, j);
        }
        let d: u64 = (b - 0x30) as u64;
        if m > 1844674407370955161 || (m == 1844674407370955161 && d > 5) {
            let k: usize = skip_digits_exec(s, j + 1);
            return (m, exp, k);
        }
        m = m * 10 + d;
        exp = exp - 1;
        j = j + 1;
    }
}

/// Accumulates explicit-exponent digits into a 32-bit counter.
fn accum_exp_exec(s: &Vec<u8>, i: usize, e0: i32) -> (r: (i32, usize, bool))
    requires
        i <= s@.len(),
        e0 >= 0,
    ensures
        sp_accum_exp(s@, i as int, e0) == (r.0, r.1 as int, r.2),
        r.1 <= s@.len(),
        r.0 >= 0,
{
    let len: usize = s.len();
    let mut j: usize = i;
    let mut e: i32 = e0;
    loop
        invariant
            i <= j <= len,
            len == s@.len(),
            e >= 0,
            sp_accum_exp(s@, i as int, e0) == sp_accum_exp(s@, j as int, e),
        decreases len - j,
    {
        if j >= len {
            return (e, j, false);
        }
        let b: u8 = s[j];
        if !(0x30 <= b && b <= 0x39) {
            return (e, j, false);
        }
        let d: i32 = (b - 0x30) as i32;
        if e > 214748364 || (e == 214748364 && d > 7) {
            let k: usize = skip_digits_exec(s, j + 1);
            return (e, k, true);
        }
        e = e * 10 + d;
        j = j + 1;
    }
}

/// Counts the decimal digits of `m`.
fn n_digits_exec(m: u64) -> (r: u32)
    ensures
        r as nat == n_digits(m as nat),
        1 <= r <= 20,
{
    proof {
        lemma_n_digits_u64(m);
    }
    let mut cur: u64 = m;
    let mut count: u32 = 1;
    while cur >= 10
        invariant
            count >= 1,
            count as nat + n_digits(cur as nat) == 1 + n_digits(m as nat),
            n_digits(m as nat) <= 20,
        decreases cur,
    {
        cur = cur / 10;
        count = count + 1;
    }
    count
}

/// Brings a scaled decimal to canonical form.
fn dec_norm_exec(m0: u64, exp0: i128) -> (r: (u64, i128))
    requires
        -73786976294838206464i128 <= exp0 <= 73786976294838206464i128,
    ensures
        dec_norm(m0, exp0 as int) == (r.0, r.1 as int),
        exp0 <= r.1 <= exp0 + 19,
{
    proof {
        lemma_dec_norm_bounds(m0, exp0 as int);
    }
    let mut m: u64 = m0;
    let mut exp: i128 = exp0;
    while m != 0 && m % 10 == 0
        invariant
            -73786976294838206464i128 <= exp0 <= 73786976294838206464i128,
            exp0 <= exp,
            dec_norm(m0, exp0 as int) == dec_norm(m, exp as int),
            exp as int <= dec_norm(m, exp as int).1,
            dec_norm(m, exp as int).1 <= exp0 + 19,
        decreases m,
    {
        proof {
            lemma_dec_norm_bounds((m / 10) as u64, exp as int + 1);
        }
        m = m / 10;
        exp = exp + 1;
    }
    (m, exp)
}

/// Builds the canonical decimal a number token denotes.
fn finish_number_exec(neg: bool, m: u64, exp: i128) -> (r: Option<DecNumber>)
    requires
        -73786976294838206464i128 <= exp <= 73786976294838206464i128,
    ensures
        r == finish_number(neg, m, exp as int),
{
    if m == 0 {
        return Some(DecNumber { neg, mantissa: 0, exp10: 0 });
    }
    let nm = dec_norm_exec(m, exp);
    let nd: u32 = n_digits_exec(nm.0);
    if nd as i128 + nm.1 > 309 {
        None
    } else if nm.1 < -2147483648 {
        Some(DecNumber { neg, mantissa: 0, exp10: 0 })
    } else {
        Some(DecNumber { neg, mantissa: nm.0, exp10: nm.1 as i32 })
    }
}

/// The byte at `j`, or zero past the end.
fn byte_at_exec(s: &Vec<u8>, j: usize) -> (b: u8)
    ensures
        b == byte_at(s@, j as int),
{
    if j < s.len() {
        s[j]
    } else {
        0
    }
}

/// Builds the number node an integer token without fraction or
/// exponent denotes.
fn int_event_exec(nonneg: bool, m: u64) -> (r: JsonNode)
    ensures
        r@ == int_event(nonneg, m),
{
    if nonneg || m == 0 {
        JsonNode::UInt(m)
    } else if m <= 0x8000000000000000 {
        let v: i64 = if m == 0x8000000000000000 {
            i64::MIN
        } else {
            -(m as i64)
        };
        JsonNode::Int(v)
    } else {
        let nm = dec_norm_exec(m, 0);
        proof {
            lemma_dec_norm_bounds(m, 0);
        }
        JsonNode::Dec(DecNumber { neg: true, mantissa: nm.0, exp10: nm.1 as i32 })
    }
}

/// Reads the explicit exponent, entered at the `e`/`E` byte.
fn exponent_exec(s: &Vec<u8>, i: usize, nonneg: bool, m: u64, exp0: i128) -> (r: Result<
    (JsonNode, usize),
    JsonError,
>)
    requires
        i < s@.len(),
        -36893488147419103232i128 <= exp0 <= 36893488147419103232i128,
    ensures
        match r {
            Ok(p) => sp_exponent(s@, i as int, nonneg, m, exp0 as int) == Some(
                (p.0@, p.1 as int),
            ) && p.1 <= s@.len(),
            Err(_) => sp_exponent(s@, i as int, nonneg, m, exp0 as int) is None,
        },
{
    let len: usize = s.len();
    let i1: usize = i + 1;
    let b1: u8 = if i1 < len {
        s[i1]
    } else {
        0
    };
    let pos_sign: bool = b1 != 0x2d;
    let i2: usize = if b1 == 0x2b || b1 == 0x2d {
        i1 + 1
    } else {
        i1
    };
    let first: u8 = if i2 < len {
        s[i2]
    } else {
        0
    };
    if !(0x30 <= first && first <= 0x39) {
        return Err(JsonError);
    }
    let acc = accum_exp_exec(s, i2 + 1, (first - 0x30) as i32);
    if acc.2 {
        if m != 0 && pos_sign {
            Err(JsonError)
        } else {
            Ok((JsonNode::Dec(DecNumber { neg: !nonneg, mantissa: 0, exp10: 0 }), acc.1))
        }
    } else {
        let total: i128 = if pos_sign {
            exp0 + acc.0 as i128
        } else {
            exp0 - acc.0 as i128
        };
        match finish_number_exec(!nonneg, m, total) {
            Some(d) => Ok((JsonNode::Dec(d), acc.1)),
            None => Err(JsonError),
        }
    }
}

/// Reads the fraction part, entered just after the dot.
fn decimal_exec(s: &Vec<u8>, i: usize, nonneg: bool, m: u64, exp0: i128) -> (r: Result<
    (JsonNode, usize),
    JsonError,
>)
    requires
        i <= s@.len(),
        0 <= exp0 <= 18446744073709551617i128,
    ensures
        match r {
            Ok(p) => sp_decimal(s@, i as int, nonneg, m, exp0 as int) == Some(
                (p.0@, p.1 as int),
            ) && p.1 <= s@.len(),
            Err(_) => sp_decimal(s@, i as int, nonneg, m, exp0 as int) is None,
        },
{
    let any: bool = i < s.len() && 0x30 <= s[i] && s[i] <= 0x39;
    if !any {
        return Err(JsonError);
    }
    let acc = accum_frac_exec(s, i, m, exp0);
    let b: u8 = byte_at_exec(s, acc.2);
    if b == 0x65 || b == 0x45 {
        exponent_exec(s, acc.2, nonneg, acc.0, acc.1)
    } else {
        match finish_number_exec(!nonneg, acc.0, acc.1) {
            Some(d) => Ok((JsonNode::Dec(d), acc.2)),
            None => Err(JsonError),
        }
    }
}

/// Continues an integer whose mantissa overflowed: the remaining
/// digits only raise the exponent.
fn long_exec(s: &Vec<u8>, i: usize, nonneg: bool, m: u64) -> (r: Result<
    (JsonNode, usize),
    JsonError,
>)
    requires
        i <= s@.len(),
    ensures
        match r {
            Ok(p) => sp_long(s@, i as int, nonneg, m) == Some((p.0@, p.1 as int)) && p.1
                <= s@.len(),
            Err(_) => sp_long(s@, i as int, nonneg, m) is None,
        },
{
    let len: usize = s.len();
    let j: usize = skip_digits_exec(s, i);
    let exp: i128 = 1 + (j - i) as i128;
    let b: u8 = if j < len {
        s[j]
    } else {
        0
    };
    if b == 0x2e {
        decimal_exec(s, j + 1, nonneg, m, exp)
    } else if b == 0x65 || b == 0x45 {
        exponent_exec(s, j, nonneg, m, exp)
    } else {
        match finish_number_exec(!nonneg, m, exp) {
            Some(d) => Ok((JsonNode::Dec(d), j)),
            None => Err(JsonError),
        }
    }
}

/// Continuation after the integer digits of a number token.
fn number_tail_exec(s: &Vec<u8>, i: usize, nonneg: bool, m: u64) -> (r: Result<
    (JsonNode, usize),
    JsonError,
>)
    requires
        i <= s@.len(),
    ensures
        match r {
            Ok(p) => sp_number(s@, i as int, nonneg, m) == Some((p.0@, p.1 as int)) && p.1
                <= s@.len(),
            Err(_) => sp_number(s@, i as int, nonneg, m) is None,
        },
{
    let len: usize = s.len();
    let b: u8 = if i < len {
        s[i]
    } else {
        0
    };
    if b == 0x2e {
        decimal_exec(s, i + 1, nonneg, m, 0)
    } else if b == 0x65 || b == 0x45 {
        exponent_exec(s, i, nonneg, m, 0)
    } else {
        Ok((int_event_exec(nonneg, m), i))
    }
}

/// Reads a whole number token, the first digit already in hand.
fn integer_exec(s: &Vec<u8>, i: usize, nonneg: bool, first: u8) -> (r: Result<
    (JsonNode, usize),
    JsonError,
>)
    requires
        i <= s@.len(),
    ensures
        match r {
            Ok(p) => sp_integer(s@, i as int, nonneg, first) == Some((p.0@, p.1 as int)) && p.1
                <= s@.len(),
            Err(_) => sp_integer(s@, i as int, nonneg, first) is None,
        },
{
    if !(0x30 <= first && first <= 0x39) {
        return Err(JsonError);
    }
    if first == 0x30 {
        let second: bool = i < s.len() && 0x30 <= s[i] && s[i] <= 0x39;
        if second {
            return Err(JsonError);
        }
        return number_tail_exec(s, i, nonneg, 0);
    }
    let acc = accum_u64_exec(s, i, (first - 0x30) as u64);
    if acc.2 {
        long_exec(s, acc.1, nonneg, acc.0)
    } else {
        number_tail_exec(s, acc.1, nonneg, acc.0)
    }
}

/// Executable form of a lexical event.
enum ExEvent {
    EScalar(JsonNode),
    EArr,
    EObj,
}

spec fn ex_event_view(e: ExEvent) -> SpEvent {
    match e {
        ExEvent::EScalar(n) => SpEvent::Scalar(n@),
        ExEvent::EArr => SpEvent::ArrStart,
        ExEvent::EObj => SpEvent::ObjStart,
    }
}

/// Reads the next token, exactly as [`sp_event`] describes.
fn next_event(s: &Vec<u8>, i: usize) -> (r: Result<(ExEvent, usize), JsonError>)
    requires
        i <= s@.len(),
    ensures
        match r {
            Ok(p) => sp_event(s@, i as int) == Some((ex_event_view(p.0), p.1 as int)) && i < p.1
                <= s@.len(),
            Err(_) => sp_event(s@, i as int) is None,
        },
{
    proof {
        lemma_sp_event_range(s@, i as int);
    }
    let len: usize = s.len();
    let k: usize = skip_ws_exec(s, i);
    if k >= len {
        return Err(JsonError);
    }
    let b: u8 = s[k];
    if b == 0x22 {
        match parse_str_exec(s, k + 1) {
            Ok(p) => Ok((ExEvent::EScalar(JsonNode::Str(p.0)), p.1)),
            Err(e) => Err(e),
        }
    } else if 0x30 <= b && b <= 0x39 {
        match integer_exec(s, k + 1, true, b) {
            Ok(p) => Ok((ExEvent::EScalar(p.0), p.1)),
            Err(e) => Err(e),
        }
    } else if b == 0x2d {
        if k + 1 >= len {
            return Err(JsonError);
        }
        match integer_exec(s, k + 2, false, s[k + 1]) {
            Ok(p) => Ok((ExEvent::EScalar(p.0), p.1)),
            Err(e) => Err(e),
        }
    } else if b == 0x7b {
        Ok((ExEvent::EObj, k + 1))
    } else if b == 0x5b {
        Ok((ExEvent::EArr, k + 1))
    } else if b == 0x6e {
        if len - k > 3 && s[k + 1] == 0x75 && s[k + 2] == 0x6c && s[k + 3] == 0x6c {
            Ok((ExEvent::EScalar(JsonNode::Null), k + 4))
        } else {
            Err(JsonError)
        }
    } else if b == 0x74 {
        if len - k > 3 && s[k + 1] == 0x72 && s[k + 2] == 0x75 && s[k + 3] == 0x65 {
            Ok((ExEvent::EScalar(JsonNode::Bool(true)), k + 4))
        } else {
            Err(JsonError)
        }
    } else if b == 0x66 {
        if len - k > 4 && s[k + 1] == 0x61 && s[k + 2] == 0x6c && s[k + 3] == 0x73 && s[k + 4]
            == 0x65 {
            Ok((ExEvent::EScalar(JsonNode::Bool(false)), k + 5))
        } else {
            Err(JsonError)
        }
    } else {
        Err(JsonError)
    }
}

/// A suspended enclosing layer of the executable parser.
enum ParseFrame {
    FArr(Vec<JsonNode>),
    FObj(Vec<(Vec<u8>, JsonNode)>, Vec<u8>),
}

spec fn frame_view(f: ParseFrame) -> PFrameV {
    match f {
        ParseFrame::FArr(items) => PFrameV::PArr(crate::json::nodes_view(items@)),
        ParseFrame::FObj(entries, key) => PFrameV::PObj(
            crate::json::entry_nodes_view(entries@),
            key@,
        ),
    }
}

spec fn stack_view(s: Seq<ParseFrame>) -> Seq<PFrameV> {
    Seq::new(s.len(), |i: int| frame_view(s[i]))
}

proof fn lemma_stack_view_push(s: Seq<ParseFrame>, f: ParseFrame)
    ensures
        stack_view(s.push(f)) == stack_view(s).push(frame_view(f)),
{
    assert(stack_view(s.push(f)) =~= stack_view(s).push(frame_view(f)));
}

proof fn lemma_stack_view_pop(s: Seq<ParseFrame>)
    requires
        s.len() > 0,
    ensures
        stack_view(s).len() == s.len(),
        stack_view(s.drop_last()) == stack_view(s).drop_last(),
        stack_view(s).last() == frame_view(s.last()),
{
    assert(stack_view(s.drop_last()) =~= stack_view(s).drop_last());
}

/// Reads the object key that must follow at `i` and the colon after
/// it; returns the key and the position after the colon.
fn parse_key_colon(s: &Vec<u8>, i: usize) -> (r: Result<(Vec<u8>, usize), JsonError>)
    requires
        i <= s@.len(),
    ensures
        match r {
            Ok(p) => sp_key_colon(s@, i as int) == Some((p.0@, p.1 as int)) && p.1 <= s@.len(),
            Err(_) => sp_key_colon(s@, i as int) is None,
        },
{
    let len: usize = s.len();
    let k: usize = skip_ws_exec(s, i);
    if !(k < len && s[k] == 0x22) {
        return Err(JsonError);
    }
    proof {
        lemma_sp_str_range(s@, k + 1, Seq::empty());
    }
    match parse_str_exec(s, k + 1) {
        Err(e) => Err(e),
        Ok(p) => {
            let c: usize = skip_ws_exec(s, p.1);
            if c < len && s[c] == 0x3a {
                Ok((p.0, c + 1))
            } else {
                Err(JsonError)
            }
        }
    }
}

/// The byte a recognized backslash escape stands for.
fn unescape_exec(b: u8) -> (r: Option<u8>)
    ensures
        r == unescape(b),
{
    if b == 0x22 {
        Some(0x22)
    } else if b == 0x5c {
        Some(0x5c)
    } else if b == 0x2f {
        Some(0x2f)
    } else if b == 0x62 {
        Some(0x08)
    } else if b == 0x66 {
        Some(0x0c)
    } else if b == 0x6e {
        Some(0x0a)
    } else if b == 0x72 {
        Some(0x0d)
    } else if b == 0x74 {
        Some(0x09)
    } else {
        None
    }
}

/// Parses one JSON document from `input`, with nothing but whitespace
/// around it: the executable form of [`spec_parse`].
///
/// The parser never calls itself: nesting lives on an explicit frame
/// stack, so arbitrarily deep documents cost no call-stack growth.
#[verifier::rlimit(100)]
pub fn parse_json(input: &Vec<u8>) -> (r: Result<JsonNode, JsonError>)
    ensures
        match spec_parse(input@) {
            Some(v) => r is Ok && r.unwrap()@ == v,
            None => r is Err,
        },
{
    let ghost goal = run_await(input@, 0, Seq::<PFrameV>::empty());
    let mut stack: Vec<ParseFrame> = Vec::new();
    let mut pos: usize = 0;
    proof {
        assert(stack_view(stack@) =~= Seq::<PFrameV>::empty());
    }
    loop
        invariant
            pos <= input@.len(),
            run_await(input@, pos as int, stack_view(stack@)) == goal,
            goal == run_await(input@, 0, Seq::<PFrameV>::empty()),
        decreases input@.len() - pos,
    {
        let ghost pos0 = pos as int;
        let ghost sv0 = stack_view(stack@);
        let ev: ExEvent = match next_event(input, pos) {
            Ok(p) => {
                pos = p.1;
                p.0
            }
            Err(_) => {
                return Err(JsonError);
            }
        };
        let mut have: Option<JsonNode> = None;
        match ev {
            ExEvent::EScalar(n) => {
                have = Some(n);
            }
            ExEvent::EArr => {
                let k: usize = skip_ws_exec(input, pos);
                if k < input.len() && input[k] == 0x5d {
                    pos = k + 1;
                    have = Some(JsonNode::Arr(Vec::new()));
                    proof {
                        assert(crate::json::nodes_view(Seq::<JsonNode>::empty())
                            =~= Seq::<JsonVal>::empty());
                    }
                } else {
                    let ghost st0 = stack@;
                    stack.push(ParseFrame::FArr(Vec::new()));
                    proof {
                        assert(crate::json::nodes_view(Seq::<JsonNode>::empty())
                            =~= Seq::<JsonVal>::empty());
                        assert(stack_view(stack@) =~= stack_view(st0).push(
                            PFrameV::PArr(Seq::empty()),
                        ));
                    }
                }
            }
            ExEvent::EObj => {
                let k: usize = skip_ws_exec(input, pos);
                if k < input.len() && input[k] == 0x7d {
                    pos = k + 1;
                    have = Some(JsonNode::Obj(Vec::new()));
                    proof {
                        assert(crate::json::entry_nodes_view(Seq::<(Vec<u8>, JsonNode)>::empty())
                            =~= Seq::<(Seq<u8>, JsonVal)>::empty());
                    }
                } else {
                    proof {
                        lemma_sp_key_colon_range(input@, pos as int);
                    }
                    match parse_key_colon(input, pos) {
                        Err(_) => {
                            return Err(JsonError);
                        }
                        Ok(p) => {
                            let ghost st0 = stack@;
                            let ghost keyv = p.0@;
                            pos = p.1;
                            stack.push(ParseFrame::FObj(Vec::new(), p.0));
                            proof {
                                assert(crate::json::entry_nodes_view(
                                    Seq::<(Vec<u8>, JsonNode)>::empty(),
                                ) =~= Seq::<(Seq<u8>, JsonVal)>::empty());
                                assert(stack_view(stack@) =~= stack_view(st0).push(
                                    PFrameV::PObj(Seq::empty(), keyv),
                                ));
                            }
                        }
                    }
                }
            }
        }
        let mut cur: JsonNode = match have {
            None => {
                continue;
            }
            Some(v) => v,
        };
        // A complete value is in hand; close finished layers and
        // advance to the next pending element.
        loop
            invariant_except_break
                pos <= input@.len(),
                run_have(input@, pos as int, stack_view(stack@), cur@) == goal,
                goal == run_await(input@, 0, Seq::<PFrameV>::empty()),
                pos > pos0,
            ensures
                pos <= input@.len(),
                run_await(input@, pos as int, stack_view(stack@)) == goal,
                pos > pos0,
            decreases stack@.len(),
        {
            if stack.len() == 0 {
                let k: usize = skip_ws_exec(input, pos);
                if k == input.len() {
                    return Ok(cur);
                } else {
                    return Err(JsonError);
                }
            }
            let ghost stp = stack@;
            let frame: ParseFrame = stack.pop().unwrap();
            proof {
                lemma_stack_view_pop(stp);
            }
            let k: usize = skip_ws_exec(input, pos);
            let b: u8 = if k < input.len() {
                input[k]
            } else {
                0
            };
            if b == 0x2c {
                match frame {
                    ParseFrame::FArr(mut items) => {
                        let ghost items0 = items@;
                        items.push(cur);
                        proof {
                            assert(items@.drop_last() =~= items0);
                        }
                        let ghost st1 = stack@;
                        stack.push(ParseFrame::FArr(items));
                        proof {
                            assert(stack_view(stack@) =~= stack_view(st1).push(
                                PFrameV::PArr(crate::json::nodes_view(items@)),
                            ));
                        }
                        pos = k + 1;
                        break;
                    }
                    ParseFrame::FObj(mut entries, key) => {
                        let ghost entries0 = entries@;
                        entries.push((key, cur));
                        proof {
                            assert(entries@.drop_last() =~= entries0);
                        }
                        proof {
                            lemma_sp_key_colon_range(input@, k as int + 1);
                        }
                        match parse_key_colon(input, k + 1) {
                            Err(_) => {
                                return Err(JsonError);
                            }
                            Ok(p) => {
                                let ghost st1 = stack@;
                                let ghost keyv = p.0@;
                                let ghost entv = crate::json::entry_nodes_view(entries@);
                                pos = p.1;
                                stack.push(ParseFrame::FObj(entries, p.0));
                                proof {
                                    assert(stack_view(stack@) =~= stack_view(st1).push(
                                        PFrameV::PObj(entv, keyv),
                                    ));
                                }
                                break;
                            }
                        }
                    }
                }
            } else if b == 0x5d {
                match frame {
                    ParseFrame::FArr(mut items) => {
                        let ghost items0 = items@;
                        items.push(cur);
                        proof {
                            assert(items@.drop_last() =~= items0);
                        }
                        cur = JsonNode::Arr(items);
                        pos = k + 1;
                    }
                    ParseFrame::FObj(_, _) => {
                        return Err(JsonError);
                    }
                }
            } else if b == 0x7d {
                match frame {
                    ParseFrame::FObj(mut entries, key) => {
                        let ghost entries0 = entries@;
                        entries.push((key, cur));
                        proof {
                            assert(entries@.drop_last() =~= entries0);
                        }
                        cur = JsonNode::Obj(entries);
                        pos = k + 1;
                    }
                    ParseFrame::FArr(_) => {
                        return Err(JsonError);
                    }
                }
            } else {
                return Err(JsonError);
            }
        }
    }
}

} // verus!
