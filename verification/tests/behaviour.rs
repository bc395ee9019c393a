use ntex_httparse::{
    parse_chunk_size, parse_method, parse_uri, parse_version, Error, Header, HeaderParsed,
    InvalidChunkSize, Request, Response, SlicePos, State, Status,
};

fn req_result(buf: &[u8]) -> (Request, Result<Status<usize>, Error>) {
    let mut req = Request::default();
    let r = req.parse(buf);
    (req, r)
}

fn res_result(buf: &[u8]) -> (Response, Result<Status<usize>, Error>) {
    let mut res = Response::default();
    let r = res.parse(buf);
    (res, r)
}

fn hdr_result(st: State, buf: &[u8]) -> (State, Header, Result<Status<HeaderParsed>, Error>) {
    let mut st = st;
    let mut h = Header::default();
    let r = h.parse_with_state(buf, &mut st);
    (st, h, r)
}

#[test]
fn request_prefixes_are_partial_or_the_same() {
    let bufs: [&[u8]; 5] = [
        b"GET /index.html HTTP/1.1\r\nHost: x\r\n\r\n",
        b"\r\n\nPOST  /p HTTP/1.0\n",
        b"PUT /a HTTP/1.2\r\n",
        b"DELETE /\xe2\x80\x99 HTTP/1.1\r\n",
        b"GET /x HTTP/1.1\rX",
    ];
    for buf in bufs {
        let whole = req_result(buf);
        for i in 0..=buf.len() {
            let part = req_result(&buf[..i]);
            assert!(part.1 == Ok(Status::Partial) || part == whole, "{:?} at {}", buf, i);
            if let Ok(Status::Complete(n)) = whole.1 {
                if i < n {
                    assert_eq!(part.1, Ok(Status::Partial));
                } else {
                    assert_eq!(part, whole);
                }
            }
        }
    }
}

#[test]
fn response_prefixes_are_partial_or_the_same() {
    let bufs: [&[u8]; 4] = [
        b"HTTP/1.1 200 OK\r\nServer: x\r\n\r\n",
        b"\nHTTP/1.0   404\n",
        b"HTTP/1.1 301 Moved \xff\r\n",
        b"HTTP/1.1 2x0 OK\r\n",
    ];
    for buf in bufs {
        let whole = res_result(buf);
        for i in 0..=buf.len() {
            let part = res_result(&buf[..i]);
            assert!(part.1 == Ok(Status::Partial) || part == whole);
            if let Ok(Status::Complete(n)) = whole.1 {
                if i < n {
                    assert_eq!(part.1, Ok(Status::Partial));
                } else {
                    assert_eq!(part, whole);
                }
            }
        }
    }
}

#[test]
fn chunk_size_prefixes_are_partial_or_the_same() {
    let bufs: [&[u8]; 4] = [b"1a;ext=1\r\nbody", b"ff \t ; x\r\n", b"12 3\r\n", b"0\r\n"];
    for buf in bufs {
        let whole = parse_chunk_size(buf);
        for i in 0..=buf.len() {
            let part = parse_chunk_size(&buf[..i]);
            assert!(part == Ok(Status::Partial) || part == whole);
            if let Ok(Status::Complete((n, _))) = whole {
                if i < n {
                    assert_eq!(part, Ok(Status::Partial));
                } else {
                    assert_eq!(part, whole);
                }
            }
        }
    }
}

#[test]
fn header_prefixes_are_partial_or_the_same() {
    let bufs: [&[u8]; 4] = [b"Host: foo \t\r\nX: y\r\n", b"\r\n", b"A:\n", b"Bad Name: x\r\n"];
    for buf in bufs {
        let whole = hdr_result(State::default(), buf);
        for i in 0..=buf.len() {
            let part = hdr_result(State::default(), &buf[..i]);
            assert!(part.2 == Ok(Status::Partial) || part == whole);
            if whole.2.is_ok() && whole.2.unwrap().is_complete() {
                if i < whole.0.cursor {
                    assert_eq!(part.2, Ok(Status::Partial));
                } else {
                    assert_eq!(part, whole);
                }
            }
        }
    }
}

#[test]
fn header_parse_resumes_from_its_state() {
    let buf: &[u8] = b"Content-Type: \t text/html \r\nNext: 1\r\n";
    let whole = hdr_result(State::default(), buf);
    assert_eq!(whole.2, Ok(Status::Complete(HeaderParsed::Header(28))));
    for cut in 0..=buf.len() {
        let mut st = State::default();
        let mut h = Header::default();
        let first = h.parse_with_state(&buf[..cut], &mut st);
        if first == Ok(Status::Partial) {
            let second = h.parse_with_state(buf, &mut st);
            assert_eq!((st, h, second), whole, "cut at {}", cut);
        } else {
            assert_eq!((st, h, first), whole);
        }
    }
}

#[test]
fn header_resume_after_cr_without_lf() {
    // The first call stops right after the CR; a buffer that goes on
    // without the LF is then read otherwise than in one call.
    let buf: &[u8] = b"\rA: b\r\n";
    let whole = hdr_result(State::default(), buf);
    assert_eq!(whole.2, Err(Error::NewLine));
    let (st, mut h, first) = hdr_result(State::default(), &buf[..1]);
    assert_eq!(first, Ok(Status::Partial));
    let mut st = st;
    let second = h.parse_with_state(buf, &mut st);
    assert_eq!(second, Ok(Status::Complete(HeaderParsed::Header(7))));
}

#[test]
fn header_eof_is_measured_from_the_accepted_start() {
    let buf: &[u8] = b"A: b\r\n\r\n";
    let mut st = State::default();
    let mut h = Header::default();
    assert_eq!(h.parse_with_state(buf, &mut st), Ok(Status::Complete(HeaderParsed::Header(6))));
    assert_eq!(st, State { start: 6, cursor: 6, state: 0 });
    assert_eq!(h.name, SlicePos { start: 0, end: 1 });
    assert_eq!(h.value, SlicePos { start: 3, end: 4 });
    assert_eq!(h.parse_with_state(buf, &mut st), Ok(Status::Complete(HeaderParsed::Eof(2))));
}

#[test]
fn slices_lie_in_the_consumed_bytes() {
    let buf: &[u8] = b"GET /caf\xc3\xa9 HTTP/1.1\r\n";
    let (req, r) = req_result(buf);
    assert_eq!(r, Ok(Status::Complete(buf.len())));
    assert_eq!(std::str::from_utf8(&buf[req.method.start..req.method.end]), Ok("GET"));
    assert_eq!(std::str::from_utf8(&buf[req.path.start..req.path.end]), Ok("/caf\u{e9}"));
    let buf: &[u8] = b"HTTP/1.1 404 Not Found\r\n";
    let (res, r) = res_result(buf);
    assert_eq!(r, Ok(Status::Complete(buf.len())));
    assert_eq!(res.code, 404);
    assert_eq!(std::str::from_utf8(&buf[res.reason.start..res.reason.end]), Ok("Not Found"));
}

#[test]
fn every_error_kind_has_an_input() {
    assert_eq!(Header::default().parse(b"(: x\r\n"), Err(Error::HeaderName));
    assert_eq!(Header::default().parse(b"A: x\x7f\r\n"), Err(Error::HeaderValue));
    assert_eq!(Header::default().parse(b"\rx"), Err(Error::NewLine));
    assert_eq!(Request::default().parse(b"\r\r"), Err(Error::NewLine));
    assert_eq!(Request::default().parse(b"GET / HTTP/1.1x"), Err(Error::NewLine));
    assert_eq!(Response::default().parse(b"HTTP/1.1 20x"), Err(Error::Status));
    assert_eq!(Request::default().parse(b"G(T / HTTP/1.1\r\n"), Err(Error::Token));
    assert_eq!(Request::default().parse(b"GET / HTTQ"), Err(Error::Version));
    assert_eq!(Response::default().parse(b"HTTP/1.1\r\n200 OK"), Err(Error::Version));
    assert_eq!(parse_chunk_size(b"x"), Err(InvalidChunkSize));
}

#[test]
fn error_descriptions() {
    assert_eq!(Error::HeaderName.description_str(), "invalid header name");
    assert_eq!(Error::HeaderValue.description_str(), "invalid header value");
    assert_eq!(Error::NewLine.description_str(), "invalid new line");
    assert_eq!(Error::Status.description_str(), "invalid response status");
    assert_eq!(Error::Token.description_str(), "invalid token");
    assert_eq!(Error::TooManyHeaders.description_str(), "too many headers");
    assert_eq!(Error::Version.description_str(), "invalid HTTP version");
    assert_eq!(InvalidChunkSize.description_str(), "invalid chunk size");
}

#[test]
fn status_helpers() {
    let c: Status<u8> = Status::Complete(7);
    let p: Status<u8> = Status::Partial;
    assert!(c.is_complete() && !c.is_partial());
    assert!(p.is_partial() && !p.is_complete());
    assert_eq!(c.unwrap(), 7);
    let mut pos = SlicePos { start: 3, end: 9 };
    pos.reset();
    assert_eq!(pos, SlicePos::default());
}

#[test]
fn standalone_parsers() {
    assert_eq!(parse_version(b"HTTP/1.0"), Ok(Status::Complete(0)));
    assert_eq!(parse_version(b"HTTP/1.1 "), Ok(Status::Complete(1)));
    assert_eq!(parse_version(b"HTTP/1"), Ok(Status::Partial));
    assert_eq!(parse_version(b"HTTP/2.0"), Err(Error::Version));
    assert_eq!(parse_version(b"HTTP/1.2"), Err(Error::Version));
    assert_eq!(parse_method(b"\r\nPOST  /"), Ok(Status::Complete("POST")));
    assert_eq!(parse_method(b"PATCH /"), Ok(Status::Complete("PATCH")));
    assert_eq!(parse_method(b"GET "), Ok(Status::Partial));
    assert_eq!(parse_method(b" GET"), Err(Error::Token));
    assert_eq!(parse_uri(b"/a/b?c  x"), Ok(Status::Complete("/a/b?c")));
    assert_eq!(parse_uri(b"/a "), Ok(Status::Partial));
    assert_eq!(parse_uri(b"/\xe2 x"), Err(Error::Token));
    assert_eq!(parse_uri(b" x"), Err(Error::Token));
}

#[test]
fn chunk_size_doc_example() {
    let buf = b"4\r\nRust\r\n0\r\n\r\n";
    assert_eq!(parse_chunk_size(buf), Ok(Status::Complete((3, 4))));
    assert_eq!(parse_chunk_size(b"\r\n"), Ok(Status::Complete((2, 0))));
    assert_eq!(parse_chunk_size(b"5 ;a;b\r\n"), Ok(Status::Complete((8, 5))));
    assert_eq!(parse_chunk_size(b"5\n"), Err(InvalidChunkSize));
}

#[test]
fn header_doc_example() {
    let buf = b"Host: foo.bar\nAccept: */*\n\nblah blah";
    let mut header = Header::default();
    assert_eq!(header.parse(buf), Ok(Status::Complete(HeaderParsed::Header(14))));
}

#[test]
fn request_fields_set_as_far_as_read() {
    let (req, r) = req_result(b"GET /x HTT");
    assert_eq!(r, Ok(Status::Partial));
    assert_eq!(req.method, SlicePos { start: 0, end: 3 });
    assert_eq!(req.path, SlicePos { start: 4, end: 6 });
    assert_eq!(req.version, 0);
    let (res, r) = res_result(b"HTTP/1.1 404 Not");
    assert_eq!(r, Ok(Status::Partial));
    assert_eq!((res.version, res.code, res.reason), (1, 404, SlicePos::default()));
}

#[test]
fn header_state_stays_well_formed() {
    let bufs: [&[u8]; 5] = [b"Host: a\r\n", b"\r\n", b"X", b"Name:   ", b"A: \x01"];
    for buf in bufs {
        for state in 0..=3u8 {
            for cursor in 0..=buf.len() {
                let st = State { start: 0, cursor, state };
                let (st1, _, r) = hdr_result(st, buf);
                assert!(st1.state <= 3 && st1.start <= st1.cursor && st1.cursor <= buf.len());
                match r {
                    Ok(Status::Complete(HeaderParsed::Header(n))) => {
                        assert_eq!((st1.state, n, n), (0, st1.cursor, st1.start));
                    }
                    Ok(Status::Complete(HeaderParsed::Eof(n))) => {
                        assert_eq!((st1.state, n), (0, st1.cursor - st1.start));
                    }
                    Ok(Status::Partial) => assert_eq!(st1.cursor, buf.len()),
                    Err(_) => {}
                }
            }
        }
    }
}

#[test]
fn partial_header_completes_with_a_line_break() {
    let bufs: [&[u8]; 6] = [b"", b"\r", b"Host", b"Host:", b"Host: \t", b"Host: foo\r"];
    for buf in bufs {
        let (st1, _, r) = hdr_result(State::default(), buf);
        assert_eq!(r, Ok(Status::Partial));
        assert!(!buf.contains(&b'\n'));
        let mut longer = buf.to_vec();
        if st1.state == 1 {
            longer.push(b':');
        }
        longer.push(b'\n');
        let (_, _, r2) = hdr_result(State::default(), &longer);
        assert!(matches!(r2, Ok(Status::Complete(_))), "{:?}", longer);
    }
}
