use inference::beam::Candidate;
use inference::frame::{decode_frame, encode_frame, header_len, FrameError, MAX_FRAME_LEN};
use inference::message::{encode_response, ErrorKind, Request, Response};
use inference::request::{encode_request, parse_request, ParseError};

fn text(b: &[u8]) -> String {
    String::from_utf8(b.to_vec()).unwrap()
}

#[test]
fn frame_round_trip() {
    let payload = b"{\"op\":\"predict\",\"tokens\":[1]}".to_vec();
    let framed = encode_frame(&payload).unwrap();
    assert_eq!(&framed[..4], &[0, 0, 0, payload.len() as u8]);
    let mut buf = framed.clone();
    buf.extend_from_slice(&[9, 9]);
    let (p, used) = decode_frame(&buf).unwrap();
    assert_eq!(p, payload);
    assert_eq!(used, framed.len());
}

#[test]
fn frame_header_is_big_endian() {
    assert_eq!(header_len(&[0, 1, 2, 3]), Ok(0x010203));
    assert_eq!(header_len(&[0, 0x10, 0, 0]), Ok(MAX_FRAME_LEN));
}

#[test]
fn oversized_header_rejected() {
    assert_eq!(header_len(&[0, 0x10, 0, 1]), Err(FrameError::Oversized));
    assert_eq!(header_len(&[0xff, 0xff, 0xff, 0xff]), Err(FrameError::Oversized));
    let buf = vec![0u8, 0x20, 0, 0, 1, 2, 3];
    assert_eq!(decode_frame(&buf).err(), Some(FrameError::Oversized));
}

#[test]
fn oversized_payload_not_framed() {
    let big = vec![0u8; MAX_FRAME_LEN + 1];
    assert_eq!(encode_frame(&big).err(), Some(FrameError::Oversized));
    let max = vec![7u8; MAX_FRAME_LEN];
    assert_eq!(encode_frame(&max).unwrap().len(), MAX_FRAME_LEN + 4);
}

#[test]
fn incomplete_frames() {
    assert_eq!(decode_frame(&vec![0, 0]).err(), Some(FrameError::Incomplete));
    assert_eq!(decode_frame(&vec![0, 0, 0, 3, 1]).err(), Some(FrameError::Incomplete));
    assert_eq!(decode_frame(&vec![0, 0, 0, 0]).unwrap(), (Vec::new(), 4));
}

#[test]
fn parse_full_request() {
    let r = parse_request(&b"{\"op\":\"predict\",\"tokens\":[1],\"beam_width\":1,\"max_new\":3}".to_vec())
        .unwrap();
    assert_eq!(r.tokens, vec![1]);
    assert_eq!(r.beam_width, Some(1));
    assert_eq!(r.max_new, Some(3));
}

#[test]
fn parse_with_whitespace_and_order() {
    let r = parse_request(
        &b" { \"max_new\" : null ,\n \"tokens\" : [ 10 , 4294967295 ] , \"op\":\"predict\" } ".to_vec(),
    )
    .unwrap();
    assert_eq!(r.tokens, vec![10, 4294967295]);
    assert_eq!(r.beam_width, None);
    assert_eq!(r.max_new, None);
}

#[test]
fn parse_missing_tokens() {
    let r = parse_request(&b"{\"op\":\"predict\"}".to_vec());
    assert_eq!(r.err(), Some(ParseError::MissingTokens));
}

#[test]
fn parse_errors() {
    let cases: Vec<(&[u8], ParseError)> = vec![
        (b"{\"tokens\":[1]}", ParseError::MissingOp),
        (b"{\"op\":\"predict\",\"tokens\":[]}", ParseError::EmptyTokens),
        (b"{\"op\":\"guess\",\"tokens\":[1]}", ParseError::Syntax),
        (b"{\"op\":\"predict\",\"tokens\":[4294967296]}", ParseError::Syntax),
        (b"{\"op\":\"predict\",\"tokens\":[01]}", ParseError::Syntax),
        (b"{\"op\":\"predict\",\"tokens\":[1],\"tokens\":[2]}", ParseError::Syntax),
        (b"{\"op\":\"predict\",\"tokens\":[1],\"extra\":1}", ParseError::Syntax),
        (b"{\"op\":\"predict\",\"tokens\":[1]", ParseError::Syntax),
        (b"", ParseError::Syntax),
    ];
    for (input, want) in cases {
        assert_eq!(parse_request(&input.to_vec()).err(), Some(want), "{}", text(input));
    }
}

#[test]
fn encode_success_response() {
    let r = Response::Success(vec![
        Candidate { tokens: vec![1, 0, 0], logprob: -815212 },
        Candidate { tokens: vec![1, 1, 0], logprob: 0 },
    ]);
    assert_eq!(
        text(&encode_response(&r)),
        "{\"status\":\"ok\",\"candidates\":[{\"tokens\":[1,0,0],\"logprob\":-0.815212},{\"tokens\":[1,1,0],\"logprob\":0.000000}]}"
    );
}

#[test]
fn encode_large_logprob() {
    let r = Response::Success(vec![Candidate { tokens: vec![42], logprob: -12345678901 }]);
    assert_eq!(
        text(&encode_response(&r)),
        "{\"status\":\"ok\",\"candidates\":[{\"tokens\":[42],\"logprob\":-12345.678901}]}"
    );
    let m = Response::Success(vec![Candidate { tokens: vec![], logprob: i64::MIN }]);
    assert_eq!(
        text(&encode_response(&m)),
        "{\"status\":\"ok\",\"candidates\":[{\"tokens\":[],\"logprob\":-9223372036854.775808}]}"
    );
}

#[test]
fn encode_error_response() {
    let r = Response::Failure(ErrorKind::Protocol, "missing \"tokens\"\n".to_string());
    assert_eq!(
        text(&encode_response(&r)),
        "{\"status\":\"error\",\"kind\":\"protocol\",\"detail\":\"missing \\\"tokens\\\"\\u000a\"}"
    );
    let kinds = [
        (ErrorKind::ModelLoad, "model_load"),
        (ErrorKind::Inference, "inference"),
        (ErrorKind::Cancelled, "cancelled"),
        (ErrorKind::Internal, "internal"),
    ];
    for (k, tag) in kinds {
        let out = text(&encode_response(&Response::Failure(k, "x\\y".to_string())));
        assert_eq!(out, format!("{{\"status\":\"error\",\"kind\":\"{}\",\"detail\":\"x\\\\y\"}}", tag));
    }
}

#[test]
fn malformed_then_valid_request() {
    assert!(parse_request(&b"{\"op\":\"predict\"}".to_vec()).is_err());
    assert!(parse_request(&b"{\"op\":\"predict\",\"tokens\":[1],\"beam_width\":1,\"max_new\":3}".to_vec()).is_ok());
}

#[test]
fn request_round_trip() {
    let cases = vec![
        Request { tokens: vec![1], beam_width: Some(1), max_new: Some(3) },
        Request { tokens: vec![0, 10, 4294967295], beam_width: None, max_new: Some(0) },
        Request { tokens: vec![7], beam_width: Some(2), max_new: None },
        Request { tokens: vec![123456], beam_width: None, max_new: None },
    ];
    for req in cases {
        let text = encode_request(&req);
        let back = parse_request(&text).unwrap();
        assert_eq!(back.tokens, req.tokens);
        assert_eq!(back.beam_width, req.beam_width);
        assert_eq!(back.max_new, req.max_new);
    }
    let r = Request { tokens: vec![1, 20], beam_width: Some(2), max_new: None };
    assert_eq!(
        String::from_utf8(encode_request(&r)).unwrap(),
        "{\"op\":\"predict\",\"tokens\":[1,20],\"beam_width\":2}"
    );
}
