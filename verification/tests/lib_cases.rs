use ntex_httparse::{
    parse_chunk_size, Error, Header, HeaderParsed, InvalidChunkSize, Request, Response, Status,
};

fn read_headers_strict(mut b: &[u8], mut consumed: usize) -> (usize, Vec<(String, Vec<u8>)>, bool) {
    let mut headers = Vec::new();
    let mut header = Header::default();
    let mut eof = false;
    while let Status::Complete(hdr) = header.parse(b).unwrap() {
        match hdr {
            HeaderParsed::Header(l) => {
                consumed += l;
                let name =
                    String::from_utf8(Vec::from(&b[header.name.start..header.name.end])).unwrap();
                let value = Vec::from(&b[header.value.start..header.value.end]);
                headers.push((name, value));
                b = &b[l..];
            }
            HeaderParsed::Eof(l) => {
                consumed += l;
                eof = true;
                break;
            }
        }
    }
    (consumed, headers, eof)
}

struct ParsedRequest {
    len: usize,
    method: String,
    path: String,
    version: u8,
    headers: Vec<(String, Vec<u8>)>,
    eof: bool,
}

fn request(buf: &[u8]) -> ParsedRequest {
    let mut req = Request::default();
    if let Ok(Status::Complete(l)) = req.parse(buf) {
        let (len, headers, eof) = read_headers_strict(&buf[l..], l);
        ParsedRequest {
            len,
            method: String::from_utf8(buf[req.method.start..req.method.end].to_vec()).unwrap(),
            path: String::from_utf8(buf[req.path.start..req.path.end].to_vec()).unwrap(),
            version: req.version,
            headers,
            eof,
        }
    } else {
        panic!()
    }
}

struct ParsedResponse {
    len: usize,
    version: u8,
    code: u16,
    reason: String,
    headers: Vec<(String, Vec<u8>)>,
    eof: bool,
}

fn response(buf: &[u8]) -> ParsedResponse {
    let mut res = Response::default();
    let l = res.parse(buf).unwrap().unwrap();
    let (len, headers, eof) = read_headers_strict(&buf[l..], l);
    ParsedResponse {
        len,
        version: res.version,
        code: res.code,
        reason: String::from_utf8(buf[res.reason.start..res.reason.end].to_vec()).unwrap(),
        headers,
        eof,
    }
}

struct ParsedHeaders {
    len: usize,
    headers: Vec<(String, Vec<u8>)>,
    eof: bool,
}

fn headers(buf: &[u8]) -> ParsedHeaders {
    let (len, headers, eof) = read_headers_strict(buf, 0);
    ParsedHeaders { len, headers, eof }
}

fn request_status(buf: &[u8]) -> Result<Status<usize>, Error> {
    Request::default().parse(buf)
}

fn response_status(buf: &[u8]) -> Result<Status<usize>, Error> {
    Response::default().parse(buf)
}

fn headers_result(buf: &[u8]) -> Result<(), Error> {
    let mut consumed = 0;
    let mut header = Header::default();
    loop {
        match header.parse(&buf[consumed..]) {
            Ok(Status::Complete(HeaderParsed::Header(l))) => {
                consumed += l;
            }
            Ok(_) => break Ok(()),
            Err(e) => break Err(e),
        }
    }
}

/// Check all subset permutations of a partial request line with no headers
#[test]
fn partial_permutations() {
    let req_str = "GET / HTTP/1.1\r\n";
    let mut req = Request::default();
    for i in 0..req_str.len() {
        let status = req.parse(&req_str.as_bytes()[..i]);
        assert_eq!(
            status,
            Ok(Status::Partial),
            "partial request line should return partial. \
              Portion which failed: '{seg}' (below {i})",
            seg = &req_str[..i]
        );
    }
}

#[test]
fn test_chunk_size() {
    assert_eq!(parse_chunk_size(b"0\r\n"), Ok(Status::Complete((3, 0))));
    assert_eq!(parse_chunk_size(b"12\r\nchunk"), Ok(Status::Complete((4, 18))));
    assert_eq!(parse_chunk_size(b"3086d\r\n"), Ok(Status::Complete((7, 198_765))));
    assert_eq!(
        parse_chunk_size(b"3735AB1;foo bar*\r\n"),
        Ok(Status::Complete((18, 57_891_505)))
    );
    assert_eq!(
        parse_chunk_size(b"3735ab1 ; baz \r\n"),
        Ok(Status::Complete((16, 57_891_505)))
    );
    assert_eq!(parse_chunk_size(b"77a65\r"), Ok(Status::Partial));
    assert_eq!(parse_chunk_size(b"ab"), Ok(Status::Partial));
    assert_eq!(parse_chunk_size(b"567f8a\rfoo"), Err(InvalidChunkSize));
    assert_eq!(parse_chunk_size(b"567f8a\rfoo"), Err(InvalidChunkSize));
    assert_eq!(parse_chunk_size(b"567xf8a\r\n"), Err(InvalidChunkSize));
    assert_eq!(
        parse_chunk_size(b"ffffffffffffffff\r\n"),
        Ok(Status::Complete((18, u64::MAX)))
    );
    assert_eq!(parse_chunk_size(b"1ffffffffffffffff\r\n"), Err(InvalidChunkSize));
    assert_eq!(parse_chunk_size(b"Affffffffffffffff\r\n"), Err(InvalidChunkSize));
    assert_eq!(parse_chunk_size(b"fffffffffffffffff\r\n"), Err(InvalidChunkSize));
}

#[test]
fn test_request_simple() {
    let r = request(b"GET / HTTP/1.1\r\n\r\n");
    let len = r.len;
    let method = r.method.as_str();
    let path = r.path.as_str();
    let version = r.version;
    let headers = r.headers.clone();
    let eof = r.eof;
    {
            assert_eq!(len, 18);
            assert_eq!(method, "GET");
            assert_eq!(path, "/");
            assert_eq!(version, 1);
            assert_eq!(headers.len(), 0);
            assert!(eof);
        }
}

#[test]
fn test_request_simple_with_query_params() {
    let r = request(b"GET /thing?data=a HTTP/1.1\r\n\r\n");
    let len = r.len;
    let method = r.method.as_str();
    let path = r.path.as_str();
    let version = r.version;
    let headers = r.headers.clone();
    let eof = r.eof;
    {
            assert_eq!(len, 30);
            assert_eq!(method, "GET");
            assert_eq!(path, "/thing?data=a");
            assert_eq!(version, 1);
            assert_eq!(headers.len(), 0);
            assert!(eof);
        }
}

#[test]
fn test_request_simple_with_whatwg_query_params() {
    let r = request(b"GET /thing?data=a^ HTTP/1.1\r\n\r\n");
    let len = r.len;
    let method = r.method.as_str();
    let path = r.path.as_str();
    let version = r.version;
    let headers = r.headers.clone();
    let eof = r.eof;
    {
            assert_eq!(len, 31);
            assert_eq!(method, "GET");
            assert_eq!(path, "/thing?data=a^");
            assert_eq!(version, 1);
            assert_eq!(headers.len(), 0);
            assert!(eof);
        }
}

#[test]
fn test_request_headers() {
    let r = request(b"GET / HTTP/1.1\r\nHost: foo.com\r\nCookie: \r\n\r\n     ");
    let len = r.len;
    let method = r.method.as_str();
    let path = r.path.as_str();
    let version = r.version;
    let headers = r.headers.clone();
    let eof = r.eof;
    {
            assert_eq!(len, 43);
            assert_eq!(method, "GET");
            assert_eq!(path, "/");
            assert_eq!(version, 1);
            assert_eq!(headers.len(), 2);
            assert_eq!(headers[0].0, "Host");
            assert_eq!(headers[0].1, b"foo.com");
            assert_eq!(headers[1].0, "Cookie");
            assert_eq!(headers[1].1, b"");
            assert!(eof);
        }
}

#[test]
fn test_request_headers_optional_whitespace() {
    let r = request(b"GET / HTTP/1.1\r\nHost: \tfoo.com\t \r\nCookie: \t \r\n\r\n");
    let len = r.len;
    let method = r.method.as_str();
    let path = r.path.as_str();
    let version = r.version;
    let headers = r.headers.clone();
    let eof = r.eof;
    {
            assert_eq!(len, 48);
            assert_eq!(method, "GET");
            assert_eq!(path, "/");
            assert_eq!(version, 1);
            assert_eq!(headers.len(), 2);
            assert_eq!(headers[0].0, "Host");
            assert_eq!(headers[0].1, b"foo.com");
            assert_eq!(headers[1].0, "Cookie");
            assert_eq!(headers[1].1, b"");
            assert!(eof);
        }
}

#[test]
fn test_request_header_value_htab_short() {
    let r = request(b"GET / HTTP/1.1\r\nUser-Agent: some\tagent\r\n\r\n");
    let len = r.len;
    let method = r.method.as_str();
    let path = r.path.as_str();
    let version = r.version;
    let headers = r.headers.clone();
    let eof = r.eof;
    {
            assert_eq!(len, 42);
            assert_eq!(method, "GET");
            assert_eq!(path, "/");
            assert_eq!(version, 1);
            assert_eq!(headers.len(), 1);
            assert_eq!(headers[0].0, "User-Agent");
            assert_eq!(headers[0].1, b"some\tagent");
            assert!(eof);
        }
}

#[test]
fn test_request_header_value_htab_med() {
    let r = request(b"GET / HTTP/1.1\r\nUser-Agent: 1234567890some\tagent\r\n\r\n");
    let len = r.len;
    let method = r.method.as_str();
    let path = r.path.as_str();
    let version = r.version;
    let headers = r.headers.clone();
    let eof = r.eof;
    {
            assert_eq!(len, 52);
            assert_eq!(method, "GET");
            assert_eq!(path, "/");
            assert_eq!(version, 1);
            assert_eq!(headers.len(), 1);
            assert_eq!(headers[0].0, "User-Agent");
            assert_eq!(headers[0].1, b"1234567890some\tagent");
            assert!(eof);
        }
}

#[test]
fn test_request_header_value_htab_long() {
    let r = request(b"GET / HTTP/1.1\r\nUser-Agent: 1234567890some\t1234567890agent1234567890\r\n\r\n");
    let len = r.len;
    let method = r.method.as_str();
    let path = r.path.as_str();
    let version = r.version;
    let headers = r.headers.clone();
    let eof = r.eof;
    {
            assert_eq!(len, 72);
            assert_eq!(method, "GET");
            assert_eq!(path, "/");
            assert_eq!(version, 1);
            assert_eq!(headers.len(), 1);
            assert_eq!(headers[0].0, "User-Agent");
            assert_eq!(headers[0].1, &b"1234567890some\t1234567890agent1234567890"[..]);
            assert!(eof);
        }
}

#[test]
fn test_request_header_no_space_after_colon() {
    let r = request(b"GET / HTTP/1.1\r\nUser-Agent:omg-no-space1234567890some1234567890agent1234567890\r\n\r\n");
    let len = r.len;
    let method = r.method.as_str();
    let path = r.path.as_str();
    let version = r.version;
    let headers = r.headers.clone();
    let eof = r.eof;
    {
            assert_eq!(len, 82);
            assert_eq!(method, "GET");
            assert_eq!(path, "/");
            assert_eq!(version, 1);
            assert_eq!(headers.len(), 1);
            assert_eq!(headers[0].0, "User-Agent");
            assert_eq!(headers[0].1, &b"omg-no-space1234567890some1234567890agent1234567890"[..]);
            assert!(eof);
        }
}

#[test]
fn test_request_headers_max() {
    let r = request(b"GET / HTTP/1.1\r\nA: A\r\nB: B\r\nC: C\r\nD: D\r\n\r\n");
    let _len = r.len;
    let _method = r.method.as_str();
    let _path = r.path.as_str();
    let _verion = r.version;
    let headers = r.headers.clone();
    let eof = r.eof;
    {
            assert_eq!(headers.len(), 4);
            assert!(eof);
        }
}

#[test]
fn test_request_multibyte() {
    let r = request(b"GET / HTTP/1.1\r\nHost: foo.com\r\nUser-Agent: \xe3\x81\xb2\xe3/1.0\r\n\r\n");
    let len = r.len;
    let method = r.method.as_str();
    let path = r.path.as_str();
    let version = r.version;
    let headers = r.headers.clone();
    let eof = r.eof;
    {
            assert_eq!(len, 55);
            assert_eq!(method, "GET");
            assert_eq!(path, "/");
            assert_eq!(version, 1);
            assert_eq!(headers.len(), 2);
            assert_eq!(headers[0].0, "Host");
            assert_eq!(headers[0].1, b"foo.com");
            assert_eq!(headers[1].0, "User-Agent");
            assert_eq!(headers[1].1, b"\xe3\x81\xb2\xe3/1.0");
            assert!(eof);
        }
}

#[test]
fn test_request_one_byte_method() {
    assert_eq!(request_status(b"G"), Ok(Status::Partial));
}

#[test]
fn test_request_partial_method() {
    assert_eq!(request_status(b"GE"), Ok(Status::Partial));
}

#[test]
fn test_request_method_no_delimiter() {
    assert_eq!(request_status(b"GET"), Ok(Status::Partial));
}

#[test]
fn test_request_method_only() {
    assert_eq!(request_status(b"GET "), Ok(Status::Partial));
}

#[test]
fn test_request_partial() {
    let r = request(b"GET / HTTP/1.1\r\n\r");
    let len = r.len;
    let method = r.method.as_str();
    let path = r.path.as_str();
    let version = r.version;
    let headers = r.headers.clone();
    let eof = r.eof;
    {
            assert_eq!(len, b"GET / HTTP/1.1\r\n\r".len() - 1);
            assert_eq!(method, "GET");
            assert_eq!(path, "/");
            assert_eq!(version, 1);
            assert_eq!(headers.len(), 0);
            assert!(!eof);
        }
}

#[test]
fn test_request_partial_version() {
    assert_eq!(request_status(b"GET / HTTP/1."), Ok(Status::Partial));
}

#[test]
fn test_request_method_path_no_delimiter() {
    assert_eq!(request_status(b"GET /"), Ok(Status::Partial));
}

#[test]
fn test_request_method_path_only() {
    assert_eq!(request_status(b"GET / "), Ok(Status::Partial));
}

#[test]
fn test_request_partial_parses_headers_as_much_as_it_can() {
    let r = request(b"GET / HTTP/1.1\r\nHost: yolo\r\n");
    let len = r.len;
    let method = r.method.as_str();
    let path = r.path.as_str();
    let version = r.version;
    let headers = r.headers.clone();
    let eof = r.eof;
    {
            assert_eq!(len, 28);
            assert_eq!(method, "GET");
            assert_eq!(path, "/");
            assert_eq!(version, 1);
            assert_eq!(headers.len(), 1);
            assert_eq!(headers[0].0, "Host");
            assert_eq!(headers[0].1, b"yolo");
            assert!(!eof);
        }
}

#[test]
fn test_request_newlines() {
    let r = request(b"GET / HTTP/1.1\nHost: foo.bar\n\n");
    let _len = r.len;
    let _method = r.method.as_str();
    let _path = r.path.as_str();
    let _verion = r.version;
    let _headers = r.headers.clone();
    let eof = r.eof;
    {
            assert!(eof);
        }
}

#[test]
fn test_request_empty_lines_prefix() {
    let r = request(b"\r\n\r\nGET / HTTP/1.1\r\n\r\n");
    let len = r.len;
    let method = r.method.as_str();
    let path = r.path.as_str();
    let version = r.version;
    let headers = r.headers.clone();
    let eof = r.eof;
    {
            assert_eq!(len, 22);
            assert_eq!(method, "GET");
            assert_eq!(path, "/");
            assert_eq!(version, 1);
            assert_eq!(headers.len(), 0);
            assert!(eof);
        }
}

#[test]
fn test_request_empty_lines_prefix_lf_only() {
    let r = request(b"\n\nGET / HTTP/1.1\n\n");
    let len = r.len;
    let method = r.method.as_str();
    let path = r.path.as_str();
    let version = r.version;
    let headers = r.headers.clone();
    let eof = r.eof;
    {
            assert_eq!(len, 18);
            assert_eq!(method, "GET");
            assert_eq!(path, "/");
            assert_eq!(version, 1);
            assert_eq!(headers.len(), 0);
            assert!(eof);
        }
}

#[test]
fn test_request_path_backslash() {
    let r = request(b"\n\nGET /\\?wayne\\=5 HTTP/1.1\n\n");
    let len = r.len;
    let method = r.method.as_str();
    let path = r.path.as_str();
    let version = r.version;
    let headers = r.headers.clone();
    let eof = r.eof;
    {
            assert_eq!(len, 28);
            assert_eq!(method, "GET");
            assert_eq!(path, "/\\?wayne\\=5");
            assert_eq!(version, 1);
            assert_eq!(headers.len(), 0);
            assert!(eof);
        }
}

#[test]
fn test_request_with_invalid_token_delimiter() {
    assert_eq!(request_status(b"GET\n/ HTTP/1.1\r\nHost: foo.bar\r\n\r\n"), Err(Error::Token));
}

#[test]
fn test_request_with_invalid_but_short_version() {
    assert_eq!(request_status(b"GET / HTTP/1!"), Err(Error::Version));
}

#[test]
fn test_request_with_empty_method() {
    assert_eq!(request_status(b" / HTTP/1.1\r\n\r\n"), Err(Error::Token));
}

#[test]
fn test_request_with_empty_path() {
    assert_eq!(request_status(b"GET  HTTP/1.1\r\n\r\n"), Err(Error::Token));
}

#[test]
fn test_request_with_empty_method_and_path() {
    assert_eq!(request_status(b"  HTTP/1.1\r\n\r\n"), Err(Error::Token));
}

#[test]
fn test_headers_optional_whitespace() {
    let r = headers(b"Host: \tfoo.com\t \r\nCookie: \t \r\n");
    let len = r.len;
    let headers = r.headers.clone();
    let eof = r.eof;
    {
            assert_eq!(len, 30);
            assert_eq!(headers.len(), 2);
            assert_eq!(headers[0].0, "Host");
            assert_eq!(headers[0].1, b"foo.com");
            assert_eq!(headers[1].0, "Cookie");
            assert_eq!(headers[1].1, b"");
            assert!(!eof);
        }
}

#[test]
fn test_headers_with_obsolete_line_folding_at_start() {
    assert_eq!(headers_result(b"Line-Folded-Header: \r\n   \r\n hello there\r\n\r\n"), Err(Error::HeaderName));
}

#[test]
fn test_header_with_invalid_name() {
    assert_eq!(headers_result(b"Host : foo.bar\r\n\r\n"), Err(Error::HeaderName));
}

#[test]
fn test_response_simple() {
    let r = response(b"HTTP/1.1 200 OK\r\n\r\n");
    let len = r.len;
    let version = r.version;
    let code = r.code;
    let reason = r.reason.as_str();
    let headers = r.headers.clone();
    let eof = r.eof;
    {
            assert_eq!(len, 19);
            assert_eq!(version, 1);
            assert_eq!(code, 200);
            assert_eq!(reason, "OK");
            assert_eq!(headers.len(), 0);
            assert!(eof);
        }
}

#[test]
fn test_response_newlines() {
    let r = response(b"HTTP/1.0 403 Forbidden\nServer: foo.bar\n\n");
    let len = r.len;
    let version = r.version;
    let code = r.code;
    let reason = r.reason.as_str();
    let headers = r.headers.clone();
    let eof = r.eof;
    {
            assert_eq!(len, 40);
            assert_eq!(version, 0);
            assert_eq!(code, 403);
            assert_eq!(reason, "Forbidden");
            assert_eq!(headers.len(), 1);
            assert_eq!(headers[0].0, "Server");
            assert_eq!(headers[0].1, b"foo.bar");
            assert!(eof);
        }
}

#[test]
fn test_response_reason_missing() {
    let r = response(b"HTTP/1.1 200 \r\n\r\n");
    let len = r.len;
    let version = r.version;
    let code = r.code;
    let reason = r.reason.as_str();
    let headers = r.headers.clone();
    let eof = r.eof;
    {
            assert_eq!(len, 17);
            assert_eq!(version, 1);
            assert_eq!(code, 200);
            assert_eq!(reason, "");
            assert_eq!(headers.len(), 0);
            assert!(eof);
        }
}

#[test]
fn test_response_reason_missing_no_space() {
    let r = response(b"HTTP/1.1 200\r\n\r\n");
    let len = r.len;
    let version = r.version;
    let code = r.code;
    let reason = r.reason.as_str();
    let headers = r.headers.clone();
    let eof = r.eof;
    {
            assert_eq!(len, 16);
            assert_eq!(version, 1);
            assert_eq!(code, 200);
            assert_eq!(reason, "");
            assert_eq!(headers.len(), 0);
            assert!(eof);
        }
}

#[test]
fn test_response_reason_missing_no_space_with_headers() {
    let r = response(b"HTTP/1.1 200\r\nFoo: bar\r\n\r\n");
    let len = r.len;
    let version = r.version;
    let code = r.code;
    let reason = r.reason.as_str();
    let headers = r.headers.clone();
    let eof = r.eof;
    {
            assert_eq!(len, 26);
            assert_eq!(version, 1);
            assert_eq!(code, 200);
            assert_eq!(reason, "");
            assert_eq!(headers.len(), 1);
            assert_eq!(headers[0].0, "Foo");
            assert_eq!(headers[0].1, b"bar");
            assert!(eof);
        }
}

#[test]
fn test_response_reason_with_space_and_tab() {
    let r = response(b"HTTP/1.1 101 Switching Protocols\t\r\n\r\n");
    let len = r.len;
    let version = r.version;
    let code = r.code;
    let reason = r.reason.as_str();
    let headers = r.headers.clone();
    let eof = r.eof;
    {
            assert_eq!(len, 37);
            assert_eq!(version, 1);
            assert_eq!(code, 101);
            assert_eq!(reason, "Switching Protocols\t");
            assert_eq!(headers.len(), 0);
            assert!(eof);
        }
}

#[test]
fn test_response_reason_with_obsolete_text_byte() {
    let r = response(b"HTTP/1.1 200 X\xFFZ\r\n\r\n");
    let len = r.len;
    let version = r.version;
    let code = r.code;
    let reason = r.reason.as_str();
    let headers = r.headers.clone();
    let eof = r.eof;
    {
            assert_eq!(len, 20);
            assert_eq!(version, 1);
            assert_eq!(code, 200);
            assert_eq!(reason, "");
            assert_eq!(headers.len(), 0);
            assert!(eof);
        }
}

#[test]
fn test_response_reason_with_nul_byte() {
    assert_eq!(response_status(b"HTTP/1.1 200 \x00\r\n\r\n"), Err(Error::Status));
}

#[test]
fn test_response_version_missing_space() {
    assert_eq!(response_status(b"HTTP/1.1"), Ok(Status::Partial));
}

#[test]
fn test_response_code_missing_space() {
    assert_eq!(response_status(b"HTTP/1.1 200"), Ok(Status::Partial));
}

#[test]
fn test_response_partial_parses_headers_as_much_as_it_can() {
    let r = response(b"HTTP/1.1 200 OK\r\nServer: yolo\r\n");
    let len = r.len;
    let version = r.version;
    let code = r.code;
    let reason = r.reason.as_str();
    let headers = r.headers.clone();
    let eof = r.eof;
    {
            assert_eq!(len, 31);
            assert_eq!(version, 1);
            assert_eq!(code, 200);
            assert_eq!(reason, "OK");
            assert_eq!(headers.len(), 1);
            assert_eq!(headers[0].0, "Server");
            assert_eq!(headers[0].1, b"yolo");
            assert!(!eof);
        }
}

#[test]
fn test_response_empty_lines_prefix_lf_only() {
    let r = response(b"\n\nHTTP/1.1 200 OK\n\n");
    let len = r.len;
    let version = r.version;
    let code = r.code;
    let reason = r.reason.as_str();
    let headers = r.headers.clone();
    let eof = r.eof;
    {
            assert_eq!(len, 19);
            assert_eq!(version, 1);
            assert_eq!(code, 200);
            assert_eq!(reason, "OK");
            assert_eq!(headers.len(), 0);
            assert!(eof);
        }
}

#[test]
fn test_response_no_cr() {
    let r = response(b"HTTP/1.0 200\nContent-type: text/html\n\n");
    let len = r.len;
    let version = r.version;
    let code = r.code;
    let reason = r.reason.as_str();
    let headers = r.headers.clone();
    let eof = r.eof;
    {
            assert_eq!(len, 38);
            assert_eq!(version, 0);
            assert_eq!(code, 200);
            assert_eq!(reason, "");
            assert_eq!(headers.len(), 1);
            assert_eq!(headers[0].0, "Content-type");
            assert_eq!(headers[0].1, b"text/html");
            assert!(eof);
        }
}

#[test]
fn test_forbid_headers_with_whitespace_between_header_name_and_colon() {
    assert_eq!(headers_result(b"Access-Control-Allow-Credentials : true\r\nBread: baguette\r\n\r\n"), Err(Error::HeaderName));
}

#[test]
fn test_forbid_headers_with_obsolete_line_folding_at_end() {
    assert_eq!(headers_result(b"Line-Folded-Header: hello there\r\n   \r\n \r\n\r\n"), Err(Error::HeaderName));
}

#[test]
fn test_forbid_headers_with_obsolete_line_folding_in_middle() {
    assert_eq!(headers_result(b"Line-Folded-Header: hello  \r\n \r\n there\r\n\r\n"), Err(Error::HeaderName));
}

#[test]
fn test_forbid_headers_with_obsolete_line_folding_in_empty_header() {
    assert_eq!(headers_result(b"Line-Folded-Header:   \r\n \r\n \r\n\r\n"), Err(Error::HeaderName));
}

#[test]
fn test_forbid_headers_with_empty_header_name() {
    assert_eq!(headers_result(b": hello\r\nBread: baguette\r\n\r\n"), Err(Error::HeaderName));
}

#[test]
fn test_forbid_headers_with_empty_header_name_second() {
    assert_eq!(headers_result(b"Bread: baguette\r\n: hello\r\n\r\n"), Err(Error::HeaderName));
}

#[test]
fn test_allow_response_with_multiple_space_delimiters() {
    let r = response(b"HTTP/1.1   200  OK\r\n\r\n");
    let len = r.len;
    let version = r.version;
    let code = r.code;
    let reason = r.reason.as_str();
    let headers = r.headers.clone();
    let eof = r.eof;
    {
            assert_eq!(len, 22);
            assert_eq!(version, 1);
            assert_eq!(code, 200);
            assert_eq!(reason, "OK");
            assert_eq!(headers.len(), 0);
            assert!(eof);
        }
}

#[test]
fn test_forbid_response_with_weird_whitespace_delimiters() {
    assert_eq!(response_status(b"HTTP/1.1 200\rOK\r\n\r\n"), Err(Error::Status));
}

#[test]
fn test_allow_request_with_multiple_space_delimiters() {
    let r = request(b"GET  /    HTTP/1.1\r\n\r\n");
    let len = r.len;
    let method = r.method.as_str();
    let path = r.path.as_str();
    let version = r.version;
    let headers = r.headers.clone();
    let eof = r.eof;
    {
            assert_eq!(len, 22);
            assert_eq!(method, "GET");
            assert_eq!(path, "/");
            assert_eq!(version, 1);
            assert_eq!(headers.len(), 0);
            assert!(eof);
        }
}

#[test]
fn test_forbid_request_with_weird_whitespace_delimiters() {
    assert_eq!(request_status(b"GET\r/\rHTTP/1.1\r\n\r\n"), Err(Error::Token));
}

#[test]
fn test_request_with_multiple_spaces_and_bad_path() {
    assert_eq!(request_status(b"GET   /foo ohno HTTP/1.1\r\n\r\n"), Err(Error::Version));
}

#[test]
fn test_request_with_del_in_path() {
    assert_eq!(request_status(b"GET   /foo\x7Fohno HTTP/1.1\r\n\r\n"), Err(Error::Token));
}

#[test]
fn test_response_with_spaces_in_code() {
    assert_eq!(response_status(b"HTTP/1.1 99 200 OK\r\n\r\n"), Err(Error::Status));
}

#[test]
fn test_headers_with_whitespace_between_header_name_and_colon() {
    assert_eq!(headers_result(b"Access-Control-Allow-Credentials  : true\r\nBread: baguette\r\n\r\n"), Err(Error::HeaderName));
}

#[test]
fn test_headers_with_invalid_char_between_header_name_and_colon() {
    assert_eq!(headers_result(b"Access-Control-Allow-Credentials\xFF: true\r\nBread: baguette\r\n\r\n"), Err(Error::HeaderName));
}

#[test]
fn test_ignore_header_line_with_missing_colon_in_response() {
    assert_eq!(headers_result(b"Access-Control-Allow-Credentials\r\nBread: baguette\r\n\r\n"), Err(Error::HeaderName));
}

#[test]
fn test_headers_header_with_missing_colon_with_folding() {
    assert_eq!(headers_result(b"Access-Control-Allow-Credentials   \r\n hello\r\nBread: baguette\r\n\r\n"), Err(Error::HeaderName));
}

#[test]
fn test_headers_header_with_nul_in_header_name() {
    assert_eq!(headers_result(b"Access-Control-Allow-Cred\0entials: hello\r\nBread: baguette\r\n\r\n"), Err(Error::HeaderName));
}

#[test]
fn test_header_with_cr_in_header_name() {
    assert_eq!(headers_result(b"Access-Control-Allow-Cred\rentials: hello\r\nBread: baguette\r\n\r\n"), Err(Error::HeaderName));
}

#[test]
fn test_header_with_nul_in_whitespace_before_colon() {
    assert_eq!(headers_result(b"Access-Control-Allow-Credentials   \0: hello\r\nBread: baguette\r\n\r\n"), Err(Error::HeaderName));
}

#[test]
fn test_header_with_nul_in_value() {
    assert_eq!(headers_result(b"Access-Control-Allow-Credentials: hell\0o\r\nBread: baguette\r\n\r\n"), Err(Error::HeaderValue));
}

#[test]
fn test_header_with_invalid_char_in_value() {
    assert_eq!(headers_result(b"Access-Control-Allow-Credentials: hell\x01o\r\nBread: baguette\r\n\r\n"), Err(Error::HeaderValue));
}

#[test]
fn test_header_with_invalid_char_in_value_with_folding() {
    assert_eq!(headers_result(b"Access-Control-Allow-Credentials: hell\x01o  \n world!\r\nBread: baguette\r\n\r\n"), Err(Error::HeaderValue));
}

#[test]
fn test_header_with_space_before_first_header() {
    assert_eq!(headers_result(b" Space-Before-Header: hello there\r\n\r\n"), Err(Error::HeaderName));
}

#[test]
fn test_response_no_space_after_colon() {
    let r = response(b"HTTP/1.1 200 OK\r\nfoo:bar\r\n\r\n");
    let len = r.len;
    let version = r.version;
    let code = r.code;
    let reason = r.reason.as_str();
    let headers = r.headers.clone();
    let eof = r.eof;
    {
            assert_eq!(len, 28);
            assert_eq!(version, 1);
            assert_eq!(code, 200);
            assert_eq!(reason, "OK");
            assert_eq!(headers.len(), 1);
            assert_eq!(headers[0].0, "foo");
            assert_eq!(headers[0].1, b"bar");
            assert!(eof);
        }
}

#[test]
fn test_request_with_leading_space() {
    assert_eq!(request_status(b" GET / HTTP/1.1\r\nfoo:bar\r\n\r\n"), Err(Error::Token));
}

#[test]
fn test_request_with_invalid_method() {
    assert_eq!(request_status(b"P()ST / HTTP/1.1\r\nfoo:bar\r\n\r\n"), Err(Error::Token));
}

#[test]
fn test_utf8_in_path_ok() {
    let r = request(b"GET /test?post=I\xE2\x80\x99msorryIforkedyou HTTP/1.1\r\nHost: example.org\r\n\r\n");
    let len = r.len;
    let method = r.method.as_str();
    let path = r.path.as_str();
    let version = r.version;
    let headers = r.headers.clone();
    let eof = r.eof;
    {
            assert_eq!(len, 67);
            assert_eq!(method, "GET");
            assert_eq!(path, "/test?post=I’msorryIforkedyou");
            assert_eq!(version, 1);
            assert_eq!(headers.len(), 1);
            assert_eq!(headers[0].0, "Host");
            assert_eq!(headers[0].1, b"example.org");
            assert!(eof);
        }
}

#[test]
fn test_bad_utf8_in_path() {
    assert_eq!(request_status(b"GET /test?post=I\xE2msorryIforkedyou HTTP/1.1\r\nHost: example.org\r\n\r\n"), Err(Error::Token));
}

#[test]
fn test_response_bench() {
    let r = response(b"\
HTTP/1.0 200 OK\r\n\
Date: Wed, 21 Oct 2015 07:28:00 GMT\r\n\
Set-Cookie: session=60; user_id=1\r\n\r\n");
    let len = r.len;
    let version = r.version;
    let code = r.code;
    let reason = r.reason.as_str();
    let headers = r.headers.clone();
    let eof = r.eof;
    {
            assert_eq!(len, 91);
            assert_eq!(version, 0);
            assert_eq!(code, 200);
            assert_eq!(reason, "OK");
            assert_eq!(headers.len(), 2);
            assert_eq!(headers[0].0, "Date");
            assert_eq!(headers[0].1, b"Wed, 21 Oct 2015 07:28:00 GMT");
            assert_eq!(headers[1].0, "Set-Cookie");
            assert_eq!(headers[1].1, b"session=60; user_id=1");
            assert!(eof);
        }
}

