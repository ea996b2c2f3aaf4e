use torctl::reply::{
    generic_reply, read_async_replies, read_reply, reply_line, validate_status_code,
    BasicReply, ContinuationKind, Outcome, ParseError, Reply, ReplyBody,
};

#[test]
fn test_validate_status_code() {
    assert_eq!(validate_status_code(b"abcd"), Err(ParseError::MalformedStatusCode));
    assert_eq!(validate_status_code(b"12"), Err(ParseError::MalformedStatusCode));
    assert_eq!(validate_status_code(b"123"), Ok(123));
}

#[test]
fn validate_status_code_letters() {
    assert_eq!(validate_status_code(b"abc"), Err(ParseError::MalformedStatusCode));
    assert_eq!(validate_status_code(b"999"), Ok(999));
    assert_eq!(validate_status_code(b"007"), Ok(7));
}

#[test]
fn test_reply_line() {
    match reply_line(b"200 OK\r\n2") {
        Outcome::Done(rest, line) => {
            assert_eq!(rest, &b"2"[..]);
            assert_eq!(line.code(), 200);
            assert!(!line.more());
            assert_eq!(line.content(), &b"OK"[..]);
            assert_eq!(line.data(), None);
        }
        other => panic!("unexpected {:?}", other),
    }

    match reply_line(b"205-it is all\r\n200 OK\r\n") {
        Outcome::Done(rest, line) => {
            assert_eq!(rest, &b"200 OK\r\n"[..]);
            assert_eq!(line.code(), 205);
            assert!(line.more());
            assert_eq!(line.content(), &b"it is all"[..]);
            assert_eq!(line.data(), None);
        }
        other => panic!("unexpected {:?}", other),
    }

    match reply_line(b"205+it is all\r\n200 OK\r\nfor now ...\r\n.\r\nfoo") {
        Outcome::Done(rest, line) => {
            assert_eq!(rest, &b"foo"[..]);
            assert_eq!(line.code(), 205);
            assert!(line.more());
            assert_eq!(line.content(), &b"it is all"[..]);
            assert_eq!(line.data(), Some(&b"200 OK\r\nfor now ..."[..]));
        }
        other => panic!("unexpected {:?}", other),
    }

    assert_eq!(reply_line(b"200 OK here it is \r"), Outcome::Incomplete);
}

#[test]
fn reply_line_kinds() {
    let kind = |b: &[u8]| match reply_line(b) {
        Outcome::Done(_, line) => line.kind(),
        other => panic!("unexpected {:?}", other),
    };
    assert_eq!(kind(b"250 OK\r\n"), ContinuationKind::Final);
    assert_eq!(kind(b"250-OK\r\n"), ContinuationKind::Multiline);
    assert_eq!(kind(b"250+OK\r\n.\r\n\r\n.\r\n"), ContinuationKind::DataBlock);
}

#[test]
fn reply_line_errors() {
    assert_eq!(reply_line(b"2x0 OK\r\n"), Outcome::Error(ParseError::MalformedStatusCode));
    assert_eq!(reply_line(b"a"), Outcome::Error(ParseError::MalformedStatusCode));
    assert_eq!(reply_line(b"2500 OK\r\n"), Outcome::Error(ParseError::MalformedSeparator));
    assert_eq!(reply_line(b"250:OK\r\n"), Outcome::Error(ParseError::MalformedSeparator));
}

#[test]
fn reply_line_incomplete() {
    assert_eq!(reply_line(b""), Outcome::Incomplete);
    assert_eq!(reply_line(b"25"), Outcome::Incomplete);
    assert_eq!(reply_line(b"250"), Outcome::Incomplete);
    assert_eq!(reply_line(b"250 OK\r"), Outcome::Incomplete);
    assert_eq!(reply_line(b"250+data\r\nline\r\n."), Outcome::Incomplete);
}

#[test]
fn basic_reply_success() {
    match BasicReply::parse(b"250 OK\r\n") {
        Outcome::Done(rest, reply) => {
            assert!(rest.is_empty());
            assert!(reply.is_ok());
            assert_eq!(reply.error_message(), None);
        }
        other => panic!("unexpected {:?}", other),
    }
}

#[test]
fn basic_reply_failure() {
    match BasicReply::parse(b"515 Authentication failed\r\n") {
        Outcome::Done(rest, reply) => {
            assert!(rest.is_empty());
            assert!(!reply.is_ok());
            assert_eq!(reply.error_message(), Some("Authentication failed".to_string()));
        }
        other => panic!("unexpected {:?}", other),
    }
}

#[test]
fn basic_reply_code_bounds() {
    let ok = |b: &[u8]| match BasicReply::parse(b) {
        Outcome::Done(_, reply) => reply.is_ok(),
        other => panic!("unexpected {:?}", other),
    };
    assert!(ok(b"200 a\r\n"));
    assert!(ok(b"299 a\r\n"));
    assert!(!ok(b"199 a\r\n"));
    assert!(!ok(b"300 a\r\n"));
}

#[test]
fn basic_reply_invalid_text() {
    assert_eq!(
        BasicReply::parse(b"551 \xff\xfe\r\n"),
        Outcome::Error(ParseError::InvalidEncoding)
    );
}

#[test]
fn basic_reply_uses_first_line_and_keeps_rest() {
    match BasicReply::parse(b"552-first\r\n250 second\r\n650 EVENT\r\n") {
        Outcome::Done(rest, reply) => {
            assert_eq!(rest, &b"650 EVENT\r\n"[..]);
            assert_eq!(reply.error_message(), Some("first".to_string()));
        }
        other => panic!("unexpected {:?}", other),
    }
}

fn lines_of(b: &[u8]) -> ReplyBody<'_> {
    match generic_reply(b) {
        Outcome::Done(_, body) => body,
        other => panic!("unexpected {:?}", other),
    }
}

#[test]
fn multiline_body_lines() {
    let buf = b"250-a\r\n250-b\r\n250-c\r\n250 OK\r\ntrailing";
    match generic_reply(buf) {
        Outcome::Done(rest, body) => {
            assert_eq!(rest, &b"trailing"[..]);
            assert_eq!(body.len(), 4);
            for i in 0..3 {
                assert_ne!(body.line(i).kind(), ContinuationKind::Final);
            }
            assert_eq!(body.line(3).kind(), ContinuationKind::Final);
            assert_eq!(body.line(1).content(), &b"b"[..]);
            assert_eq!(body.code(), 250);
        }
        other => panic!("unexpected {:?}", other),
    }
}

#[test]
fn single_line_body() {
    let body = lines_of(b"250 OK\r\n");
    assert_eq!(body.len(), 1);
    assert_eq!(body.line(0).kind(), ContinuationKind::Final);
}

#[test]
fn data_block_payload() {
    let buf = b"250+onions/current=\r\nline one\r\nline two\r\n.\r\n250 OK\r\n";
    let body = lines_of(buf);
    assert_eq!(body.len(), 2);
    assert_eq!(body.line(0).kind(), ContinuationKind::DataBlock);
    assert_eq!(body.line(0).content(), &b"onions/current="[..]);
    assert_eq!(body.line(0).data(), Some(&b"line one\r\nline two"[..]));
    assert_eq!(body.line(1).data(), None);
}

#[test]
fn data_block_keeps_lone_dots_inside() {
    let buf = b"250+x\r\na.b\r\n.x\r\n.\r\n250 OK\r\n";
    let body = lines_of(buf);
    assert_eq!(body.line(0).data(), Some(&b"a.b\r\n.x"[..]));
}

#[test]
fn body_errors_propagate() {
    assert_eq!(
        generic_reply(b"250-a\r\n25x OK\r\n"),
        Outcome::Error(ParseError::MalformedStatusCode)
    );
    assert_eq!(
        generic_reply(b"250-a\r\n250?OK\r\n"),
        Outcome::Error(ParseError::MalformedSeparator)
    );
}

#[test]
fn truncated_buffers_are_incomplete() {
    let full: &[u8] = b"250-a\r\n250+b\r\nx\r\ny\r\n.\r\n250 OK\r\n";
    let whole = generic_reply(full);
    assert!(matches!(whole, Outcome::Done(rest, _) if rest.is_empty()));
    for k in 0..full.len() {
        assert_eq!(generic_reply(&full[..k]), Outcome::Incomplete, "cut at {}", k);
        assert_eq!(BasicReply::parse(&full[..k]), Outcome::Incomplete, "cut at {}", k);
        let mut again = full[..k].to_vec();
        again.extend_from_slice(&full[k..]);
        assert_eq!(generic_reply(&again), lines_result(full));
    }
}

fn lines_result(b: &[u8]) -> Outcome<'_, ReplyBody<'_>> {
    generic_reply(b)
}

#[test]
fn async_bodies_are_split_off() {
    let buf: &[u8] = b"650 CIRC 1 BUILT\r\n650-STREAM\r\n650 DONE\r\n250 OK\r\n";
    let (bodies, rest) = read_async_replies(buf);
    assert_eq!(bodies.len(), 2);
    assert_eq!(bodies[0].line(0).content(), &b"CIRC 1 BUILT"[..]);
    assert_eq!(bodies[1].len(), 2);
    assert_eq!(bodies[1].line(1).content(), &b"DONE"[..]);
    assert_eq!(rest, &b"250 OK\r\n"[..]);
    let consumed = buf.len() - rest.len();
    let mut joined = buf[..consumed].to_vec();
    joined.extend_from_slice(rest);
    assert_eq!(joined, buf.to_vec());
}

#[test]
fn async_scan_stops_quietly() {
    let buf: &[u8] = b"650 A\r\n650 incompl";
    let (bodies, rest) = read_async_replies(buf);
    assert_eq!(bodies.len(), 1);
    assert_eq!(rest, &b"650 incompl"[..]);

    let bad: &[u8] = b"6x0 A\r\n250 OK\r\n";
    let (bodies, rest) = read_async_replies(bad);
    assert_eq!(bodies.len(), 0);
    assert_eq!(rest, bad);
}

#[test]
fn read_reply_empty_is_incomplete() {
    let (bodies, r) = read_reply::<BasicReply>(b"");
    assert!(bodies.is_empty());
    assert_eq!(r, Outcome::Incomplete);
}

#[test]
fn read_reply_with_events() {
    let (bodies, r) = read_reply::<BasicReply>(b"650 EVENT\r\n515 Authentication failed\r\nx");
    assert_eq!(bodies.len(), 1);
    assert_eq!(bodies[0].code(), 650);
    match r {
        Outcome::Done(rest, reply) => {
            assert_eq!(rest, &b"x"[..]);
            assert_eq!(reply.error_message(), Some("Authentication failed".to_string()));
        }
        other => panic!("unexpected {:?}", other),
    }
}

#[test]
fn read_reply_partial_event_reports_incomplete() {
    let (bodies, r) = read_reply::<BasicReply>(b"650 EVENT\r\n650 still arriv");
    assert_eq!(bodies.len(), 1);
    assert_eq!(r, Outcome::Incomplete);
}

#[test]
fn read_reply_malformed_event_reports_error() {
    let (bodies, r) = read_reply::<BasicReply>(b"65x EVENT\r\n250 OK\r\n");
    assert!(bodies.is_empty());
    assert_eq!(r, Outcome::Error(ParseError::MalformedStatusCode));
}
