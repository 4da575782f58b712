use katago_bridge::codec::{decode_line, digits_to_u64, encode_request, LineBuffer, RequestEnvelope};
use katago_bridge::json::{is_wf, parse_value, push_string, push_value, JsonMember, JsonValue};
use katago_bridge::supervisor::backoff_ms;

fn ser(v: &JsonValue) -> Vec<u8> {
    let mut out = Vec::new();
    push_value(v, &mut out);
    out
}

#[test]
fn encode_request_without_params_writes_null() {
    let req = RequestEnvelope { id: 7, method: b"settings.read".to_vec(), params: None };
    assert_eq!(
        encode_request(&req),
        b"{\"id\":7,\"method\":\"settings.read\",\"params\":null}\n".to_vec()
    );
}

#[test]
fn string_escaping_round_trips() {
    let tricky = JsonValue::Str(b"a\"b\\c\nd\te\r".to_vec());
    let mut out = Vec::new();
    push_string(
        match &tricky {
            JsonValue::Str(s) => s,
            _ => unreachable!(),
        },
        &mut out,
    );
    assert_eq!(out, b"\"a\\\"b\\\\c\\nd\\te\\r\"".to_vec());
    let (parsed, used) = parse_value(&out, 0).expect("parses back");
    assert_eq!(used, out.len());
    assert_eq!(parsed, tricky);
}

#[test]
fn nested_value_round_trips_through_parser() {
    let v = JsonValue::Arr(vec![
        JsonValue::Num(b"1".to_vec()),
        JsonValue::Num(b"-12.5e3".to_vec()),
        JsonValue::Bool(false),
        JsonValue::Null,
        JsonValue::Obj(vec![
            JsonMember { key: b"k".to_vec(), val: JsonValue::Str(b"v".to_vec()) },
            JsonMember {
                key: b"xs".to_vec(),
                val: JsonValue::Arr(vec![JsonValue::Bool(true)]),
            },
        ]),
    ]);
    let bytes = ser(&v);
    assert_eq!(
        bytes,
        b"[1,-12.5e3,false,null,{\"k\":\"v\",\"xs\":[true]}]".to_vec()
    );
    let (parsed, used) = parse_value(&bytes, 0).expect("parses back");
    assert_eq!(used, bytes.len());
    assert_eq!(parsed, v);
}

#[test]
fn parser_accepts_interior_whitespace() {
    let bytes = b" { \"id\" : 3 , \"result\" : [ 1 , 2 ] } ".to_vec();
    let env = decode_line(&bytes).expect("decodes");
    assert_eq!(env.id, 3);
    let v = env.outcome.expect("success");
    assert_eq!(
        v,
        JsonValue::Arr(vec![JsonValue::Num(b"1".to_vec()), JsonValue::Num(b"2".to_vec())])
    );
}

#[test]
fn parser_rejects_lone_surrogates_and_bare_control() {
    // A high surrogate without its low half, a lone low half, and junk.
    assert!(parse_value(&b"\"a\\ud83d\"".to_vec(), 0).is_none());
    assert!(parse_value(&b"\"\\udc01\"".to_vec(), 0).is_none());
    assert!(parse_value(&b"\"\\uzzzz\"".to_vec(), 0).is_none());
    assert!(parse_value(&b"\"a\x01b\"".to_vec(), 0).is_none());
    assert!(parse_value(&b"\"unterminated".to_vec(), 0).is_none());
}

#[test]
fn parser_decodes_four_digit_escapes_to_utf8() {
    let (v, used) = parse_value(&b"\"\\u0041\\u00e9\\u4e2d\"".to_vec(), 0).expect("parses");
    assert_eq!(used, 20);
    assert_eq!(v, JsonValue::Str(vec![0x41, 0xc3, 0xa9, 0xe4, 0xb8, 0xad]));
    // A surrogate pair decodes to one four-byte code point.
    let (v, _) = parse_value(&b"\"\\ud83d\\ude00\"".to_vec(), 0).expect("parses");
    assert_eq!(v, JsonValue::Str(vec![0xf0, 0x9f, 0x98, 0x80]));
    // Four-digit escapes for characters with short escapes work too.
    let (v, _) = parse_value(&b"\"\\u0009\\u000a\"".to_vec(), 0).expect("parses");
    assert_eq!(v, JsonValue::Str(vec![0x09, 0x0a]));
}

#[test]
fn control_bytes_serialize_as_hex_escapes_and_round_trip() {
    let v = JsonValue::Str(vec![0x01, 0x1f, 0x08, 0x0c]);
    let bytes = ser(&v);
    assert_eq!(bytes, b"\"\\u0001\\u001f\\u0008\\u000c\"".to_vec());
    let (parsed, used) = parse_value(&bytes, 0).expect("parses back");
    assert_eq!(used, bytes.len());
    assert_eq!(parsed, v);
}

#[test]
fn decode_rejects_trailing_garbage() {
    assert!(decode_line(&b"{\"id\":1,\"result\":null} extra".to_vec()).is_none());
    assert!(decode_line(&b"null".to_vec()).is_none());
    assert!(decode_line(&b"{\"id\":true,\"result\":null}".to_vec()).is_none());
    assert!(decode_line(&b"{\"id\":1}".to_vec()).is_none());
}

#[test]
fn decimal_results_pass_through_unchanged() {
    let env = decode_line(&b"{\"id\":7,\"result\":{\"volume\":0.8}}".to_vec()).expect("decodes");
    assert_eq!(env.id, 7);
    let v = env.outcome.expect("success");
    assert_eq!(
        v,
        JsonValue::Obj(vec![JsonMember {
            key: b"volume".to_vec(),
            val: JsonValue::Num(b"0.8".to_vec()),
        }])
    );
    // Handing the result back re-emits the very bytes the backend sent.
    assert_eq!(ser(&v), b"{\"volume\":0.8}".to_vec());
}

#[test]
fn decode_takes_first_of_duplicate_keys() {
    let env = decode_line(&b"{\"id\":4,\"id\":5,\"result\":0}".to_vec()).expect("decodes");
    assert_eq!(env.id, 4);
}

#[test]
fn digit_parsing_matches_u64_range() {
    assert_eq!(digits_to_u64(&b"0".to_vec()), Some(0));
    assert_eq!(digits_to_u64(&b"42".to_vec()), Some(42));
    assert_eq!(digits_to_u64(&b"18446744073709551615".to_vec()), Some(u64::MAX));
    assert_eq!(digits_to_u64(&b"18446744073709551616".to_vec()), None);
    assert_eq!(digits_to_u64(&b"".to_vec()), None);
    assert_eq!(digits_to_u64(&b"12a".to_vec()), None);
}

#[test]
fn line_buffer_reassembles_partial_reads() {
    let mut lb = LineBuffer::new();
    lb.push_chunk(&b"{\"id\":1,".to_vec());
    assert!(lb.take_line().is_none());
    lb.push_chunk(&b"\"result\":null}\n{\"id\":2".to_vec());
    assert_eq!(lb.take_line(), Some(b"{\"id\":1,\"result\":null}".to_vec()));
    assert!(lb.take_line().is_none());
    lb.push_chunk(&b",\"result\":true}\n".to_vec());
    assert_eq!(lb.take_line(), Some(b"{\"id\":2,\"result\":true}".to_vec()));
    assert!(lb.take_line().is_none());
}

#[test]
fn line_buffer_skips_past_corrupt_line() {
    let mut lb = LineBuffer::new();
    lb.push_chunk(&b"garbage\n{\"id\":1,\"result\":7}\n".to_vec());
    let bad = lb.take_line().expect("first line");
    assert!(decode_line(&bad).is_none());
    let good = lb.take_line().expect("second line");
    let env = decode_line(&good).expect("decodes");
    assert_eq!(env.id, 1);
}

#[test]
fn encoded_request_is_exactly_one_line() {
    let payload = JsonValue::Obj(vec![JsonMember {
        key: b"note".to_vec(),
        val: JsonValue::Str(b"line one\nline two".to_vec()),
    }]);
    assert!(is_wf(&payload));
    let req = RequestEnvelope {
        id: 12,
        method: b"settings.write".to_vec(),
        params: Some(payload),
    };
    let wire = encode_request(&req);
    assert_eq!(*wire.last().unwrap(), b'\n');
    assert!(wire[..wire.len() - 1].iter().all(|&b| b != b'\n'));
}

#[test]
fn well_formedness_constrains_only_number_literals() {
    assert!(is_wf(&JsonValue::Null));
    assert!(is_wf(&JsonValue::Num(b"-12.5e3".to_vec())));
    assert!(!is_wf(&JsonValue::Num(b"\n".to_vec())));
    assert!(!is_wf(&JsonValue::Num(b"".to_vec())));
    assert!(is_wf(&JsonValue::Str(b"tabs\tand\nnewlines".to_vec())));
    // Strings may hold any bytes at all: escaping covers them.
    assert!(is_wf(&JsonValue::Str(vec![0x01, 0x00, 0xff])));
    assert!(!is_wf(&JsonValue::Arr(vec![JsonValue::Num(b"e".to_vec())])));
}

#[test]
fn backoff_doubles_and_clamps() {
    assert_eq!(backoff_ms(0), 100);
    assert_eq!(backoff_ms(1), 200);
    assert_eq!(backoff_ms(5), 3200);
    assert_eq!(backoff_ms(9), 51200);
    assert_eq!(backoff_ms(10), 60000);
    assert_eq!(backoff_ms(30), 60000);
}
