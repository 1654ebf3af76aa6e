use rediss::resp_codec::{decode_value, encode, DecodeOutcome, RespCodec, RespResult};
use rediss::resp_types::RespDataType;

fn expect_done(o: DecodeOutcome) -> (RespResult, usize) {
    match o {
        DecodeOutcome::Done(r, n) => (r, n),
        DecodeOutcome::NeedMoreData => panic!("expected a result, got NeedMoreData"),
    }
}

fn expect_value(o: DecodeOutcome) -> (RespDataType, usize) {
    let (r, n) = expect_done(o);
    match r {
        Ok(v) => (v, n),
        Err(e) => panic!("expected a value, got parse error: {}", e.message),
    }
}

fn expect_error(o: DecodeOutcome) -> (String, usize) {
    let (r, n) = expect_done(o);
    match r {
        Ok(v) => panic!("expected a parse error, got value: {:?}", v),
        Err(e) => (e.message, n),
    }
}

fn expect_need_more(o: DecodeOutcome) {
    match o {
        DecodeOutcome::NeedMoreData => {}
        DecodeOutcome::Done(r, n) => panic!("expected NeedMoreData, got {:?} ({})", r, n),
    }
}

#[test]
fn bulk_string_is_binary_safe() {
    let (v, n) = expect_value(decode_value(b"$3\r\n\x00\xff\x02\r\n", false));
    assert_eq!(v, RespDataType::BulkString(vec![0x00, 0xff, 0x02]));
    assert_eq!(n, 9);
}

#[test]
fn bulk_string_may_embed_crlf() {
    let (v, n) = expect_value(decode_value(b"$4\r\n\r\n\r\n\r\n", false));
    assert_eq!(v, RespDataType::BulkString(vec![13, 10, 13, 10]));
    assert_eq!(n, 10);
}

#[test]
fn negative_lengths_decode_to_nil() {
    let (v, n) = expect_value(decode_value(b"*-1\r\n", false));
    assert_eq!(v, RespDataType::Nil);
    assert_eq!(n, 5);

    let (v, n) = expect_value(decode_value(b"$-1\r\n", false));
    assert_eq!(v, RespDataType::Nil);
    assert_eq!(n, 5);
}

#[test]
fn nil_array_at_top_level() {
    let mut codec = RespCodec::new();
    let (v, n) = expect_value(codec.decode(b"*-1\r\n", false));
    assert_eq!(v, RespDataType::Nil);
    assert_eq!(n, 5);
}

#[test]
fn integers_parse_and_garbage_is_reported() {
    let (v, n) = expect_value(decode_value(b":123\r\n", false));
    assert_eq!(v, RespDataType::Integer(123));
    assert_eq!(n, 6);

    let (v, _) = expect_value(decode_value(b":-5\r\n", false));
    assert_eq!(v, RespDataType::Integer(-5));

    let (msg, n) = expect_error(decode_value(b":abc\r\n", false));
    assert!(msg.contains("abc"), "message should name the offending text: {}", msg);
    assert!(msg.contains("expected integer, got garbage"), "{}", msg);
    assert_eq!(n, 6);
}

#[test]
fn integer_token_is_trimmed() {
    let (v, _) = expect_value(decode_value(b": 42 \r\n", false));
    assert_eq!(v, RespDataType::Integer(42));
}

#[test]
fn integer_bounds_are_exact() {
    let (v, _) = expect_value(decode_value(b":9223372036854775807\r\n", false));
    assert_eq!(v, RespDataType::Integer(i64::MAX));

    let (v, _) = expect_value(decode_value(b":-9223372036854775808\r\n", false));
    assert_eq!(v, RespDataType::Integer(i64::MIN));

    let (msg, _) = expect_error(decode_value(b":9223372036854775808\r\n", false));
    assert!(msg.contains("expected integer, got garbage"), "{}", msg);
}

#[test]
fn bare_line_feed_is_no_terminator() {
    let (msg, _) = expect_error(decode_value(b":12\n34\r\n", false));
    assert!(msg.contains("expected integer, got garbage"), "{}", msg);
}

#[test]
fn array_keeps_order_and_exact_length() {
    let (v, n) = expect_value(decode_value(b"*3\r\n:1\r\n:2\r\n:3\r\n", false));
    assert_eq!(
        v,
        RespDataType::Array(vec![
            RespDataType::Integer(1),
            RespDataType::Integer(2),
            RespDataType::Integer(3),
        ])
    );
    assert_eq!(n, 16);
}

#[test]
fn nested_arrays_decode() {
    let (v, n) = expect_value(decode_value(b"*2\r\n*1\r\n:1\r\n:2\r\n", false));
    assert_eq!(
        v,
        RespDataType::Array(vec![
            RespDataType::Array(vec![RespDataType::Integer(1)]),
            RespDataType::Integer(2),
        ])
    );
    assert_eq!(n, 16);
}

#[test]
fn empty_collections_are_not_nil() {
    let (v, n) = expect_value(decode_value(b"*0\r\n", false));
    assert_eq!(v, RespDataType::Array(vec![]));
    assert_eq!(n, 4);

    let (v, n) = expect_value(decode_value(b"$0\r\n\r\n", false));
    assert_eq!(v, RespDataType::BulkString(vec![]));
    assert_eq!(n, 6);
}

#[test]
fn chunking_is_invariant_byte_by_byte() {
    let frame: &[u8] = b"*2\r\n$3\r\nfoo\r\n:7\r\n";
    let whole = expect_value(decode_value(frame, false));

    let mut codec = RespCodec::new();
    for i in 0..frame.len() - 1 {
        expect_need_more(codec.decode(&frame[i..i + 1], false));
    }
    let (v, n) = expect_value(codec.decode(&frame[frame.len() - 1..], false));
    assert_eq!((v, n), whole);
    assert_eq!(n, frame.len());
}

#[test]
fn suspended_array_resumes_where_it_stopped() {
    let mut codec = RespCodec::new();
    expect_need_more(codec.decode(b"*2\r\n:1\r\n", false));
    let (v, n) = expect_value(codec.decode(b":2\r\n", false));
    assert_eq!(
        v,
        RespDataType::Array(vec![RespDataType::Integer(1), RespDataType::Integer(2)])
    );
    assert_eq!(n, 12);
}

#[test]
fn decoder_recovers_after_violation() {
    let mut codec = RespCodec::new();
    let (msg, _) = expect_error(codec.decode(b"*1\r\n:abc\r\n", false));
    assert!(msg.contains("abc"), "{}", msg);

    let (v, n) = expect_value(codec.decode(b"*1\r\n:5\r\n", false));
    assert_eq!(v, RespDataType::Array(vec![RespDataType::Integer(5)]));
    assert_eq!(n, 8);
}

#[test]
fn two_frames_are_consumed_one_per_call() {
    let mut codec = RespCodec::new();
    let ping = RespDataType::Array(vec![RespDataType::BulkString(b"ping".to_vec())]);

    let (v, n) = expect_value(codec.decode(b"*1\r\n$4\r\nping\r\n*1\r\n$4\r\nping\r\n", false));
    assert_eq!(v, ping);
    assert_eq!(n, 14);

    let (v, n) = expect_value(codec.decode(b"", false));
    assert_eq!(v, ping);
    assert_eq!(n, 14);
}

#[test]
fn inline_command_only_at_top_level() {
    let mut codec = RespCodec::new();
    let (v, n) = expect_value(codec.decode(b"PING\r\n", false));
    assert_eq!(v, RespDataType::SimpleString(String::from("PING")));
    assert_eq!(n, 6);

    let (msg, _) = expect_error(decode_value(b"PING\r\n", false));
    assert!(msg.contains("unexpected token"), "{}", msg);
}

#[test]
fn inline_integer_line_is_a_simple_string() {
    let mut codec = RespCodec::new();
    let (v, n) = expect_value(codec.decode(b":123\r\n", false));
    assert_eq!(v, RespDataType::SimpleString(String::from(":123")));
    assert_eq!(n, 6);
}

#[test]
fn unexpected_nested_type_byte_is_a_violation() {
    let mut codec = RespCodec::new();
    let (msg, n) = expect_error(codec.decode(b"*1\r\n+x\r\n", false));
    assert!(msg.contains("unexpected token"), "{}", msg);
    assert_eq!(n, 8);
}

#[test]
fn bulk_string_requires_its_terminator() {
    let (msg, _) = expect_error(decode_value(b"$3\r\nfooXY", false));
    assert!(msg.contains("expected CRLF terminator"), "{}", msg);
}

#[test]
fn violation_discards_buffered_remainder() {
    let mut codec = RespCodec::new();
    let (_, n) = expect_error(codec.decode(b"*1\r\n:abc\r\n:5\r\n", false));
    assert_eq!(n, 14, "everything buffered is reported as consumed");

    expect_need_more(codec.decode(b"", false));
}

#[test]
fn eof_mid_frame_is_a_truncated_frame() {
    let mut codec = RespCodec::new();
    let (msg, n) = expect_error(codec.decode(b"*2\r\n:1\r\n", true));
    assert!(msg.contains("unexpected end of input"), "{}", msg);
    assert_eq!(n, 8);
}

#[test]
fn eof_with_nothing_buffered_is_quiet() {
    let mut codec = RespCodec::new();
    expect_need_more(codec.decode(b"", true));
}

#[test]
fn invalid_utf8_inline_line_is_a_violation() {
    let mut codec = RespCodec::new();
    let (msg, _) = expect_error(codec.decode(b"\xff\xfe\r\n", false));
    assert!(msg.contains("invalid utf-8"), "{}", msg);
}

#[test]
fn encode_appends_reply_bytes_verbatim() {
    let mut out: Vec<u8> = vec![1, 2];
    encode("+PONG\r\n", &mut out);
    assert_eq!(out, b"\x01\x02+PONG\r\n".to_vec());

    encode("", &mut out);
    assert_eq!(out, b"\x01\x02+PONG\r\n".to_vec());
}
