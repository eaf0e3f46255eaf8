use viral32111_stomp::commands::{connect_frame, subscribe_frame, u32_decimal};
use viral32111_stomp::decode::{drain_frames, try_decode, Decoded, ProtocolError};
use viral32111_stomp::frame::{create, Frame};
use viral32111_stomp::header::Headers;

fn bytes(s: &str) -> Vec<u8> {
    s.as_bytes().to_vec()
}

fn pair(name: &str, value: &str) -> (Vec<u8>, Vec<u8>) {
    (bytes(name), bytes(value))
}

fn decode_one(input: &[u8]) -> (Frame, usize) {
    let buf: Vec<u8> = input.to_vec();
    match try_decode(&buf) {
        Ok(Decoded::Finished { frame, consumed }) => (frame, consumed),
        Ok(Decoded::Incomplete) => panic!("expected a complete frame"),
        Err(e) => panic!("expected a frame, got {:?}", e),
    }
}

#[test]
fn encode_subscribe_example() {
    let headers = vec![pair("id", "0"), pair("destination", "/topic/foo"), pair("ack", "auto")];
    let encoded = create(&bytes("SUBSCRIBE"), &headers, &None);
    assert_eq!(
        encoded,
        bytes("SUBSCRIBE\nid:0\ndestination:/topic/foo\nack:auto\n\n\0")
    );
}

#[test]
fn subscribe_frame_matches_encoder() {
    let frame = subscribe_frame(0, &bytes("/topic/foo"), &bytes("auto"));
    assert_eq!(
        frame,
        bytes("SUBSCRIBE\nid:0\ndestination:/topic/foo\nack:auto\n\n\0")
    );
}

#[test]
fn connect_frame_bytes() {
    let frame = connect_frame(
        &bytes("mq.example"),
        &bytes("user"),
        &bytes("secret"),
        &bytes("1.2"),
        &bytes("0,0"),
    );
    assert_eq!(
        frame,
        bytes("CONNECT\naccept-version:1.2\nhost:mq.example\nheart-beat:0,0\nlogin:user\npasscode:secret\n\n\0")
    );
}

#[test]
fn decode_connected_example() {
    let input = bytes("CONNECTED\nversion:1.2\n\n\0");
    let (frame, consumed) = decode_one(&input);
    assert_eq!(frame.command, bytes("CONNECTED"));
    assert_eq!(frame.headers, vec![pair("version", "1.2")]);
    assert!(frame.body.is_none());
    assert_eq!(consumed, input.len());
}

#[test]
fn round_trip_with_body() {
    let headers = vec![pair("destination", "/topic/foo"), pair("content-length", "11")];
    let body = bytes("hello world");
    let encoded = create(&bytes("MESSAGE"), &headers, &Some(body.clone()));
    let (frame, consumed) = decode_one(&encoded);
    assert_eq!(frame.command, bytes("MESSAGE"));
    assert_eq!(frame.headers, headers);
    assert_eq!(frame.body, Some(body));
    assert_eq!(consumed, encoded.len());
}

#[test]
fn binary_safety_content_length() {
    let mut input = bytes("MESSAGE\ncontent-length:5\n\n");
    input.extend_from_slice(&[0x00, 0x01, 0x00, 0xFF, 0x00]);
    input.push(0);
    let (frame, consumed) = decode_one(&input);
    assert_eq!(frame.body, Some(vec![0x00, 0x01, 0x00, 0xFF, 0x00]));
    assert_eq!(consumed, input.len());
}

#[test]
fn incomplete_headers_only() {
    let mut pending = bytes("MESSAGE\ndestination:/topic/foo\n");
    let before = pending.clone();
    match try_decode(&pending) {
        Ok(Decoded::Incomplete) => (),
        other => panic!("expected incomplete, got a different outcome: {:?}", other.is_ok()),
    }
    let frames = drain_frames(&mut pending).expect("no protocol error");
    assert!(frames.is_empty());
    assert_eq!(pending, before);
}

#[test]
fn multi_frame_batch() {
    let f1 = create(&bytes("CONNECTED"), &vec![pair("version", "1.2")], &None);
    let f2 = create(
        &bytes("MESSAGE"),
        &vec![pair("content-length", "3")],
        &Some(bytes("abc")),
    );
    let no_headers: Vec<(Vec<u8>, Vec<u8>)> = Vec::new();
    let f3 = create(&bytes("ERROR"), &no_headers, &None);
    let mut pending: Vec<u8> = Vec::new();
    pending.extend_from_slice(&f1);
    pending.extend_from_slice(&f2);
    pending.extend_from_slice(&f3);

    let frames = drain_frames(&mut pending).expect("no protocol error");
    assert_eq!(frames.len(), 3);
    assert_eq!(frames[0].command, bytes("CONNECTED"));
    assert_eq!(frames[1].command, bytes("MESSAGE"));
    assert_eq!(frames[1].body, Some(bytes("abc")));
    assert_eq!(frames[2].command, bytes("ERROR"));
    assert!(pending.is_empty());
}

#[test]
fn byte_at_a_time_resumption() {
    let headers = vec![pair("content-length", "4")];
    let encoded = create(&bytes("MESSAGE"), &headers, &Some(bytes("data")));
    let mut pending: Vec<u8> = Vec::new();
    let mut seen: Vec<Frame> = Vec::new();
    let mut i: usize = 0;
    while i < encoded.len() {
        pending.push(encoded[i]);
        let mut frames = drain_frames(&mut pending).expect("no protocol error");
        if i + 1 < encoded.len() {
            assert!(frames.is_empty(), "no frame may appear before its last byte");
        }
        seen.append(&mut frames);
        i += 1;
    }
    assert_eq!(seen.len(), 1);
    assert_eq!(seen[0].command, bytes("MESSAGE"));
    assert_eq!(seen[0].body, Some(bytes("data")));
    assert!(pending.is_empty());
}

#[test]
fn malformed_header_lines_skipped() {
    let input = bytes("MESSAGE\nno-colon-here\n:emptyname\ngood:value\n\n\0");
    let (frame, _) = decode_one(&input);
    assert_eq!(frame.headers, vec![pair("good", "value")]);
}

#[test]
fn invalid_content_length_is_fatal() {
    let input = bytes("MESSAGE\ncontent-length:abc\n\n\0");
    let buf: Vec<u8> = input.to_vec();
    match try_decode(&buf) {
        Err(ProtocolError::InvalidContentLength) => (),
        _ => panic!("expected an invalid content-length error"),
    }
    let mut pending = input.clone();
    match drain_frames(&mut pending) {
        Err(ProtocolError::InvalidContentLength) => (),
        _ => panic!("expected the drain to fail the same way"),
    }
    assert_eq!(pending, input);
}

#[test]
fn missing_terminator_is_fatal() {
    let input = bytes("MESSAGE\ncontent-length:2\n\nXYZ");
    match try_decode(&input) {
        Err(ProtocolError::MissingTerminator) => (),
        _ => panic!("expected a missing-terminator error"),
    }
}

#[test]
fn trailing_line_feed_consumed() {
    let input = bytes("CONNECTED\n\n\0\nMESSAGE");
    let (frame, consumed) = decode_one(&input);
    assert_eq!(frame.command, bytes("CONNECTED"));
    assert_eq!(consumed, bytes("CONNECTED\n\n\0\n").len());
}

#[test]
fn carriage_return_trimmed_from_command() {
    let input = bytes("CONNECTED\r\n\n\0");
    let (frame, _) = decode_one(&input);
    assert_eq!(frame.command, bytes("CONNECTED"));
    assert!(frame.headers.is_empty());
    assert!(frame.body.is_none());
}

#[test]
fn content_length_zero_gives_empty_body() {
    let input = bytes("MESSAGE\ncontent-length:0\n\n\0");
    let (frame, _) = decode_one(&input);
    assert_eq!(frame.body, Some(Vec::new()));
}

#[test]
fn no_content_length_empty_body_is_none() {
    let input = bytes("RECEIPT\nreceipt-id:7\n\n\0");
    let (frame, _) = decode_one(&input);
    assert!(frame.body.is_none());
}

#[test]
fn content_length_name_case_insensitive() {
    let input = bytes("MESSAGE\nContent-Length:3\n\nx\0y\0");
    let (frame, consumed) = decode_one(&input);
    assert_eq!(frame.body, Some(bytes("x\0y")));
    assert_eq!(consumed, input.len());
}

#[test]
fn duplicate_headers_kept_first_answers() {
    let input = bytes("MESSAGE\ndest:a\ndest:b\n\n\0");
    let (frame, _) = decode_one(&input);
    assert_eq!(frame.headers, vec![pair("dest", "a"), pair("dest", "b")]);
    let name = bytes("DEST");
    assert_eq!(frame.header_value(&name), Some(&bytes("a")));
}

#[test]
fn header_lookup_absent_name() {
    let input = bytes("MESSAGE\ndest:a\n\n\0");
    let (frame, _) = decode_one(&input);
    assert_eq!(frame.header_value(&bytes("content-type")), None);
}

#[test]
fn known_header_names() {
    assert_eq!(Headers::ContentLength.as_str(), "content-length");
    assert_eq!(Headers::ContentType.as_str(), "content-type");
    assert_eq!(Headers::ContentLength.as_bytes(), bytes("content-length"));
    assert_eq!(Headers::ContentType.as_bytes(), bytes("content-type"));
}

#[test]
fn u32_decimal_rendering() {
    assert_eq!(u32_decimal(0), bytes("0"));
    assert_eq!(u32_decimal(7), bytes("7"));
    assert_eq!(u32_decimal(42), bytes("42"));
    assert_eq!(u32_decimal(1000), bytes("1000"));
    assert_eq!(u32_decimal(u32::MAX), bytes("4294967295"));
}

#[test]
fn drain_across_reads() {
    let f1 = create(&bytes("CONNECTED"), &vec![pair("version", "1.2")], &None);
    let f2 = create(&bytes("MESSAGE"), &vec![pair("k", "v")], &Some(bytes("body")));
    let mut pending: Vec<u8> = Vec::new();

    pending.extend_from_slice(&f1[..5]);
    assert!(drain_frames(&mut pending).unwrap().is_empty());

    pending.extend_from_slice(&f1[5..]);
    pending.extend_from_slice(&f2[..9]);
    let first = drain_frames(&mut pending).unwrap();
    assert_eq!(first.len(), 1);
    assert_eq!(first[0].command, bytes("CONNECTED"));

    pending.extend_from_slice(&f2[9..]);
    let second = drain_frames(&mut pending).unwrap();
    assert_eq!(second.len(), 1);
    assert_eq!(second[0].command, bytes("MESSAGE"));
    assert_eq!(second[0].body, Some(bytes("body")));
    assert!(pending.is_empty());
}
