//! The JSON codec, exercised on concrete documents: rendering, the
//! boundary behaviors of the number grammar, the escape table, and
//! byte-level round trips.

use flight_rpc::decode::{parse_json, JsonError};
use flight_rpc::encode::{escape_str, to_json_bytes};
use flight_rpc::json::{safe_drop, DecNumber, JsonNode};

fn parse_str_doc(s: &str) -> Result<JsonNode, JsonError> {
    let bytes: Vec<u8> = s.as_bytes().to_vec();
    parse_json(&bytes)
}

fn render(n: &JsonNode) -> String {
    String::from_utf8(to_json_bytes(n)).unwrap()
}

#[test]
fn renders_scalars() {
    assert_eq!(render(&JsonNode::Null), "null");
    assert_eq!(render(&JsonNode::Bool(true)), "true");
    assert_eq!(render(&JsonNode::Bool(false)), "false");
    assert_eq!(render(&JsonNode::UInt(0)), "0");
    assert_eq!(render(&JsonNode::UInt(18446744073709551615)), "18446744073709551615");
    assert_eq!(render(&JsonNode::Int(-1)), "-1");
    assert_eq!(render(&JsonNode::Int(i64::MIN)), "-9223372036854775808");
}

#[test]
fn renders_two_decimal_numbers() {
    let fare = JsonNode::Dec(DecNumber { neg: false, mantissa: 15099, exp10: -2 });
    assert_eq!(render(&fare), "150.99");
    let whole = JsonNode::Dec(DecNumber { neg: false, mantissa: 5, exp10: 0 });
    assert_eq!(render(&whole), "5.00");
    let neg = JsonNode::Dec(DecNumber { neg: true, mantissa: 15, exp10: -1 });
    assert_eq!(render(&neg), "-1.50");
    let zero = JsonNode::Dec(DecNumber { neg: true, mantissa: 0, exp10: 0 });
    assert_eq!(render(&zero), "-0.00");
}

#[test]
fn renders_containers_without_whitespace() {
    let doc = JsonNode::Obj(vec![
        (b"a".to_vec(), JsonNode::Arr(vec![JsonNode::UInt(1), JsonNode::UInt(2)])),
        (b"b".to_vec(), JsonNode::Arr(vec![])),
        (b"c".to_vec(), JsonNode::Obj(vec![])),
    ]);
    assert_eq!(render(&doc), "{\"a\":[1,2],\"b\":[],\"c\":{}}");
}

#[test]
fn escape_str_covers_the_table() {
    let mut out: Vec<u8> = Vec::new();
    let input: Vec<u8> = b"a\"b\\c\x08\x09\x0a\x0c\x0d\x01/".to_vec();
    escape_str(&input, &mut out);
    assert_eq!(
        String::from_utf8(out).unwrap(),
        "\"a\\\"b\\\\c\\b\\t\\n\\f\\r\\u0001/\""
    );
}

#[test]
fn parses_every_recognized_escape() {
    let doc = parse_str_doc("\"a\\\"\\\\\\/\\b\\f\\n\\r\\tz\"").unwrap();
    match doc {
        JsonNode::Str(s) => assert_eq!(s, b"a\"\\/\x08\x0c\n\r\tz".to_vec()),
        _ => panic!("expected a string"),
    }
}

#[test]
fn rejects_unicode_escapes_and_raw_controls() {
    assert!(parse_str_doc("\"\\u0041\"").is_err());
    assert!(parse_json(&vec![0x22, 0x01, 0x22]).is_err());
    assert!(parse_str_doc("\"unterminated").is_err());
    assert!(parse_str_doc("\"").is_err());
}

#[test]
fn integer_boundaries() {
    match parse_str_doc("9223372036854775807").unwrap() {
        JsonNode::UInt(n) => assert_eq!(n, 9223372036854775807),
        _ => panic!("expected an unsigned integer"),
    }
    // one past the signed range still fits the unsigned mantissa
    match parse_str_doc("9223372036854775808").unwrap() {
        JsonNode::UInt(n) => assert_eq!(n, 9223372036854775808),
        _ => panic!("expected an unsigned integer"),
    }
    match parse_str_doc("-9223372036854775808").unwrap() {
        JsonNode::Int(n) => assert_eq!(n, i64::MIN),
        _ => panic!("expected a signed integer"),
    }
    // one below the signed range widens to a decimal
    match parse_str_doc("-9223372036854775809").unwrap() {
        JsonNode::Dec(d) => {
            assert!(d.neg);
            assert_eq!(d.mantissa, 9223372036854775809);
            assert_eq!(d.exp10, 0);
        }
        _ => panic!("expected a decimal"),
    }
    // overflowing the unsigned mantissa widens too, dropping low digits
    match parse_str_doc("18446744073709551616").unwrap() {
        JsonNode::Dec(d) => {
            assert!(!d.neg);
            assert_eq!(d.mantissa, 1844674407370955161);
            assert_eq!(d.exp10, 1);
        }
        _ => panic!("expected a decimal"),
    }
}

#[test]
fn huge_exponent_is_an_error() {
    assert!(parse_str_doc("1e400").is_err());
    assert!(parse_str_doc("1e99999999999").is_err());
    // an underflowing exponent collapses to signed zero instead
    match parse_str_doc("-1e-99999999999").unwrap() {
        JsonNode::Dec(d) => {
            assert!(d.neg);
            assert_eq!(d.mantissa, 0);
            assert_eq!(d.exp10, 0);
        }
        _ => panic!("expected a decimal"),
    }
}

#[test]
fn number_grammar_details() {
    match parse_str_doc("1.50").unwrap() {
        JsonNode::Dec(d) => {
            assert!(!d.neg);
            assert_eq!(d.mantissa, 15);
            assert_eq!(d.exp10, -1);
        }
        _ => panic!("expected a decimal"),
    }
    assert!(parse_str_doc("01").is_err());
    assert!(parse_str_doc("1.").is_err());
    assert!(parse_str_doc("1e").is_err());
    assert!(parse_str_doc("-").is_err());
    // a signed zero collapses to the unsigned value
    match parse_str_doc("-0").unwrap() {
        JsonNode::UInt(n) => assert_eq!(n, 0),
        _ => panic!("expected an unsigned integer"),
    }
}

#[test]
fn containers_and_structure_errors() {
    match parse_str_doc(" [ ] ").unwrap() {
        JsonNode::Arr(items) => assert_eq!(items.len(), 0),
        _ => panic!("expected an array"),
    }
    match parse_str_doc(" { } ").unwrap() {
        JsonNode::Obj(entries) => assert_eq!(entries.len(), 0),
        _ => panic!("expected an object"),
    }
    // a mismatched closing bracket is a hard error
    assert!(parse_str_doc("[}").is_err());
    assert!(parse_str_doc("[1}").is_err());
    assert!(parse_str_doc("{\"a\":1]").is_err());
    // trailing bytes after the document are a hard error
    assert!(parse_str_doc("1 2").is_err());
    assert!(parse_str_doc("null x").is_err());
    assert!(parse_str_doc("[1,]").is_err());
    assert!(parse_str_doc("[,1]").is_err());
    assert!(parse_str_doc("{\"a\" 1}").is_err());
    assert!(parse_str_doc("").is_err());
}

#[test]
fn round_trips_concrete_documents() {
    let docs = vec![
        "null",
        "true",
        "false",
        "0",
        "42",
        "-7",
        "\"hello\"",
        "\"\"",
        "[1,2,3]",
        "[[[]]]",
        "{\"k\":\"v\",\"n\":[1,{\"m\":null}]}",
        "150.99",
        "-1.50",
    ];
    for text in docs {
        let doc = parse_str_doc(text).unwrap();
        let rendered = to_json_bytes(&doc);
        assert_eq!(rendered, text.as_bytes().to_vec(), "failed on {}", text);
        let again = parse_json(&rendered).unwrap();
        assert_eq!(to_json_bytes(&again), rendered);
    }
}

#[test]
fn whitespace_and_key_discipline() {
    let doc = parse_str_doc(" { \"a\" : 1 , \"a\" : 2 , \"b\" : 3 } ").unwrap();
    match doc {
        JsonNode::Obj(entries) => {
            // the tree keeps every entry in input order
            assert_eq!(entries.len(), 3);
            assert_eq!(entries[0].0, b"a".to_vec());
            assert_eq!(entries[2].0, b"b".to_vec());
        }
        _ => panic!("expected an object"),
    }
}

#[test]
fn deep_nesting_survives_parse_render_and_drop() {
    let mut text = String::new();
    let depth = 20000;
    for _ in 0..depth {
        text.push('[');
    }
    for _ in 0..depth {
        text.push(']');
    }
    let doc = parse_str_doc(&text).unwrap();
    let rendered = to_json_bytes(&doc);
    assert_eq!(rendered.len(), 2 * depth);
    safe_drop(doc);
}
