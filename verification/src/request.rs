use vstd::prelude::*;

use crate::iter::Bytes;
use crate::utils::{
    end_of, is_complete, is_method_token, lemma_ascii_valid_utf8, lemma_empty_lines, lemma_scan, lemma_scan_ge,
    lemma_scan_skip, lemma_scan_unique, empty_lines_stop, left_at, match_uri_vectored, moved_to, scan, skip_empty_lines,
    skip_spaces, empty_lines_spec, tchar, value_of, ByteClass, Step, CR, LF, SP,
};
use crate::version::{parse_version_inner, version_spec};
use crate::{Error, SlicePos, State, Status};
use vstd::string::StringSliceAdditionalSpecFns;
use vstd::utf8::valid_utf8;

verus! {

/// `simdutf8::basic::from_utf8`, which hands the bytes back as a `&str`
/// exactly when they are valid UTF-8. Claimed: the result is there if and
/// only if the bytes are valid UTF-8 (vstd's `valid_utf8`), and it holds
/// the same bytes.
#[verifier::external_body]
fn str_from_utf8<'a>(bytes: &'a [u8]) -> (r: Option<&'a str>)
    ensures
        r is Some <==> valid_utf8(bytes@),
        r matches Some(t) ==> t.spec_bytes() == bytes@,
{
    simdutf8::basic::from_utf8(bytes).ok()
}

/// `GET ` and `POST `.
pub open spec fn get_sp() -> Seq<u8> {
    seq![0x47u8, 0x45, 0x54, 0x20]
}

pub open spec fn post_sp() -> Seq<u8> {
    seq![0x50u8, 0x4f, 0x53, 0x54, 0x20]
}

pub open spec fn starts_with(s: Seq<u8>, p: int, pat: Seq<u8>) -> bool {
    &&& 0 <= p
    &&& p + pat.len() <= s.len()
    &&& s.subrange(p, p + pat.len()) == pat
}

/// A method that `GET ` or `POST ` gave, followed by the spaces up to the
/// request target.
pub open spec fn known_method_spec(s: Seq<u8>, q: int, m: SlicePos) -> Step<SlicePos> {
    let e = scan(s, q, ByteClass::Space);
    if e >= s.len() {
        Ok(Status::Partial)
    } else {
        Ok(Status::Complete((m, e)))
    }
}

/// The method token at `p`: `GET ` and `POST ` with the spaces after them,
/// or any other token with the one space after it.
pub open spec fn method_token_spec(s: Seq<u8>, p: int) -> Step<SlicePos> {
    if starts_with(s, p, get_sp()) {
        known_method_spec(s, p + 4, SlicePos { start: p as usize, end: (p + 3) as usize })
    } else if starts_with(s, p, post_sp()) {
        known_method_spec(s, p + 5, SlicePos { start: p as usize, end: (p + 4) as usize })
    } else {
        let e = scan(s, p, ByteClass::Token);
        if e >= s.len() {
            Ok(Status::Partial)
        } else if e == p || s[e] != SP {
            Err(Error::Token)
        } else {
            Ok(Status::Complete((SlicePos { start: p as usize, end: e as usize }, e + 1)))
        }
    }
}

/// The method of a request line at `p`, after any empty lines.
pub open spec fn method_spec(s: Seq<u8>, p: int) -> Step<SlicePos> {
    match empty_lines_spec(s, p) {
        Ok(Status::Complete((_, p1))) => method_token_spec(s, p1),
        Ok(Status::Partial) => Ok(Status::Partial),
        Err(e) => Err(e),
    }
}

/// The request target at `p`: a nonempty run of target bytes that is valid
/// UTF-8, a space, and the spaces after it.
pub open spec fn uri_spec(s: Seq<u8>, p: int) -> Step<SlicePos> {
    let e = scan(s, p, ByteClass::Uri);
    if e >= s.len() {
        Ok(Status::Partial)
    } else if s[e] != SP || e == p || !valid_utf8(s.subrange(p, e)) {
        Err(Error::Token)
    } else {
        let q = scan(s, e + 1, ByteClass::Space);
        if q >= s.len() {
            Ok(Status::Partial)
        } else {
            Ok(Status::Complete((SlicePos { start: p as usize, end: e as usize }, q)))
        }
    }
}

/// Where reading a request target at `p` leaves the cursor and the
/// accepted start, whatever the outcome (the start is at `p` before): the
/// target and the space after it are accepted once it is known to be
/// nonempty.
pub open spec fn uri_after(s: Seq<u8>, p: int) -> (int, int) {
    let e = scan(s, p, ByteClass::Uri);
    if e >= s.len() {
        (e, p)
    } else if s[e] != SP || e == p {
        (e + 1, p)
    } else if !valid_utf8(s.subrange(p, e)) {
        (e + 1, e + 1)
    } else {
        let q = scan(s, e + 1, ByteClass::Space);
        (q, if q >= s.len() { e + 1 } else { q })
    }
}

/// Where reading a method token at `p` leaves the cursor and the accepted
/// start, whatever the outcome (the start is at `p` before).
pub open spec fn method_token_after(s: Seq<u8>, p: int) -> (int, int) {
    if starts_with(s, p, get_sp()) {
        let q = scan(s, p + 4, ByteClass::Space);
        (q, if q >= s.len() { p + 4 } else { q })
    } else if starts_with(s, p, post_sp()) {
        let q = scan(s, p + 5, ByteClass::Space);
        (q, if q >= s.len() { p + 5 } else { q })
    } else {
        let e = scan(s, p, ByteClass::Token);
        if e >= s.len() {
            (e, p)
        } else if e == p || s[e] != SP {
            (e + 1, p)
        } else {
            (e + 1, e + 1)
        }
    }
}

/// Where reading the method of a request line at `p` leaves the cursor
/// and the accepted start, whatever the outcome (`start` before).
pub open spec fn method_after(s: Seq<u8>, p: int, start: int) -> (int, int) {
    match empty_lines_spec(s, p) {
        Ok(Status::Complete((_, p1))) => method_token_after(s, p1),
        _ => (empty_lines_stop(s, p), start),
    }
}

/// A line break at `p`: CRLF or a bare LF.
pub open spec fn newline_spec(s: Seq<u8>, p: int) -> Step<()> {
    if p >= s.len() {
        Ok(Status::Partial)
    } else if s[p] == CR {
        if p + 1 >= s.len() {
            Ok(Status::Partial)
        } else if s[p + 1] == LF {
            Ok(Status::Complete(((), p + 2)))
        } else {
            Err(Error::NewLine)
        }
    } else if s[p] == LF {
        Ok(Status::Complete(((), p + 1)))
    } else {
        Err(Error::NewLine)
    }
}

/// Where reading a line break at `p` leaves the cursor, whatever the
/// outcome: past the last byte it read.
pub open spec fn newline_stop(s: Seq<u8>, p: int) -> int {
    if p >= s.len() {
        p
    } else if s[p] == CR {
        if p + 1 >= s.len() {
            p + 1
        } else {
            p + 2
        }
    } else {
        p + 1
    }
}

/// A parsed Request.
#[derive(Copy, Clone, PartialEq, Eq, Debug)]
pub struct Request {
    /// Parsed request's method.
    pub method: SlicePos,
    /// Parsed request's path.
    pub path: SlicePos,
    /// Parsed request's http version.
    pub version: u8,
}

impl Default for Request {
    fn default() -> (r: Self)
        ensures
            r == (Request {
                method: SlicePos { start: 0, end: 0 },
                path: SlicePos { start: 0, end: 0 },
                version: 0,
            }),
    {
        Request { method: SlicePos::default(), path: SlicePos::default(), version: 0 }
    }
}

/// A request line: the method, the request target, the version and a line
/// break. Each field of the request is set as soon as its part is read;
/// on completion the result is the length of the line.
pub open spec fn request_spec(req: Request, s: Seq<u8>) -> (Request, Result<Status<usize>, Error>) {
    match method_spec(s, 0) {
        Err(e) => (req, Err(e)),
        Ok(Status::Partial) => (req, Ok(Status::Partial)),
        Ok(Status::Complete((m, p1))) => {
            let r1 = Request { method: m, path: req.path, version: req.version };
            match uri_spec(s, p1) {
                Err(e) => (r1, Err(e)),
                Ok(Status::Partial) => (r1, Ok(Status::Partial)),
                Ok(Status::Complete((path, p2))) => {
                    let r2 = Request { method: m, path: path, version: req.version };
                    match version_spec(s, p2) {
                        Err(e) => (r2, Err(e)),
                        Ok(Status::Partial) => (r2, Ok(Status::Partial)),
                        Ok(Status::Complete((v, p3))) => {
                            let r3 = Request { method: m, path: path, version: v };
                            match newline_spec(s, p3) {
                                Err(e) => (r3, Err(e)),
                                Ok(Status::Partial) => (r3, Ok(Status::Partial)),
                                Ok(Status::Complete((_, p4))) => (r3, Ok(Status::Complete(p4 as usize))),
                            }
                        },
                    }
                },
            }
        },
    }
}

impl Request {
    /// Parse request
    pub fn parse(&mut self, src: &[u8]) -> (r: Result<Status<usize>, Error>)
        ensures
            (*final(self), r) == request_spec(*old(self), src@),
    {
        let mut bytes = Bytes::new(src, State::default());
        let ghost s = src@;
        self.method = match parse_method_inner(&mut bytes) {
            Ok(Status::Complete(m)) => m,
            Ok(Status::Partial) => {
                return Ok(Status::Partial);
            },
            Err(e) => {
                return Err(e);
            },
        };
        self.path = match parse_uri_inner(&mut bytes) {
            Ok(Status::Complete((_, path))) => path,
            Ok(Status::Partial) => {
                return Ok(Status::Partial);
            },
            Err(e) => {
                return Err(e);
            },
        };
        self.version = match parse_version_inner(&mut bytes) {
            Ok(Status::Complete(v)) => v,
            Ok(Status::Partial) => {
                return Ok(Status::Partial);
            },
            Err(e) => {
                return Err(e);
            },
        };
        match newline(&mut bytes) {
            Ok(Status::Complete(())) => {},
            Ok(Status::Partial) => {
                return Ok(Status::Partial);
            },
            Err(e) => {
                return Err(e);
            },
        }
        Ok(Status::Complete(bytes.cursor()))
    }
}

/// The method of a request line, as a string.
pub fn parse_method(src: &[u8]) -> (r: Result<Status<&str>, Error>)
    ensures
        match method_spec(src@, 0) {
            Ok(Status::Complete((m, _))) => r matches Ok(Status::Complete(t)) && t.spec_bytes()
                == src@.subrange(m.start as int, m.end as int),
            Ok(Status::Partial) => r == Ok::<Status<&str>, Error>(Status::Partial),
            Err(e) => r == Err::<Status<&str>, Error>(e),
        },
{
    let mut bytes = Bytes::new(src, State::default());
    let s = match parse_method_inner(&mut bytes) {
        Ok(Status::Complete(m)) => m,
        Ok(Status::Partial) => {
            return Ok(Status::Partial);
        },
        Err(e) => {
            return Err(e);
        },
    };
    proof {
        assert(src@.len() <= usize::MAX) by {
            assert(src@.len() == src.len());
        }
        lemma_method_tokens(src@, 0);
        let w = src@.subrange(s.start as int, s.end as int);
        lemma_ascii_valid_utf8(w);
    }
    let w = vstd::slice::slice_subrange(src, s.start, s.end);
    match str_from_utf8(w) {
        Some(m) => Ok(Status::Complete(m)),
        None => vstd::pervasive::unreached(),
    }
}

/// A method slice lies in the buffer and is made of token bytes.
pub proof fn lemma_method_tokens(s: Seq<u8>, p: int)
    requires
        0 <= p <= s.len() <= usize::MAX,
        is_complete(method_spec(s, p)),
    ensures
        ({
            let m = method_spec(s, p)->Ok_0->Complete_0.0;
            &&& p <= m.start < m.end <= end_of(method_spec(s, p)) <= s.len()
            &&& forall|i: int| m.start <= i < m.end ==> tchar(#[trigger] s[i]) && s[i] < 0x80
        }),
{
    lemma_empty_lines(s, p);
    let p1 = end_of(empty_lines_spec(s, p));
    if starts_with(s, p1, get_sp()) {
        lemma_scan_ge(s, p1 + 4, ByteClass::Space);
        assert forall|i: int| p1 <= i < p1 + 3 implies tchar(#[trigger] s[i]) && s[i] < 0x80 by {
            assert(s[i] == s.subrange(p1, p1 + 4)[i - p1]);
        }
    } else if starts_with(s, p1, post_sp()) {
        lemma_scan_ge(s, p1 + 5, ByteClass::Space);
        assert forall|i: int| p1 <= i < p1 + 4 implies tchar(#[trigger] s[i]) && s[i] < 0x80 by {
            assert(s[i] == s.subrange(p1, p1 + 5)[i - p1]);
        }
    } else {
        lemma_scan(s, p1, ByteClass::Token);
        let e = scan(s, p1, ByteClass::Token);
        assert forall|i: int| p1 <= i < e implies tchar(#[trigger] s[i]) && s[i] < 0x80 by {
            assert(crate::utils::in_class(ByteClass::Token, s[i]));
        }
    }
}

/// The result of a request-target parse agrees with `spec`: on completion
/// it holds the target's position and the target as a string.
pub open spec fn uri_result_agrees(
    r: Result<Status<(&str, SlicePos)>, Error>,
    spec: Step<SlicePos>,
    s: Seq<u8>,
) -> bool {
    match spec {
        Ok(Status::Complete((pos, _))) => r matches Ok(Status::Complete((t, pos2))) && pos2 == pos
            && t.spec_bytes() == s.subrange(pos.start as int, pos.end as int),
        Ok(Status::Partial) => r matches Ok(Status::Partial),
        Err(e) => r == Err::<Status<(&str, SlicePos)>, Error>(e),
    }
}

/// The request target at the start of a buffer, as a string.
pub fn parse_uri(src: &[u8]) -> (r: Result<Status<&str>, Error>)
    ensures
        match uri_spec(src@, 0) {
            Ok(Status::Complete((pos, _))) => r matches Ok(Status::Complete(t)) && t.spec_bytes()
                == src@.subrange(pos.start as int, pos.end as int),
            Ok(Status::Partial) => r == Ok::<Status<&str>, Error>(Status::Partial),
            Err(e) => r == Err::<Status<&str>, Error>(e),
        },
{
    let mut bytes = Bytes::new(src, State::default());
    match parse_uri_inner(&mut bytes) {
        Ok(Status::Complete((path, _))) => Ok(Status::Complete(path)),
        Ok(Status::Partial) => Ok(Status::Partial),
        Err(e) => Err(e),
    }
}

fn parse_uri_inner<'a>(bytes: &mut Bytes<'a>) -> (r: Result<Status<(&'a str, SlicePos)>, Error>)
    requires
        old(bytes).st.start == old(bytes).st.cursor <= old(bytes).slice@.len(),
    ensures
        uri_result_agrees(r, uri_spec(old(bytes).bytes(), old(bytes).pos()), old(bytes).bytes()),
        is_complete(uri_spec(old(bytes).bytes(), old(bytes).pos())) ==> moved_to(
            *old(bytes),
            *final(bytes),
            end_of(uri_spec(old(bytes).bytes(), old(bytes).pos())),
        ),
        left_at(
            *old(bytes),
            *final(bytes),
            uri_after(old(bytes).bytes(), old(bytes).pos()).0,
            uri_after(old(bytes).bytes(), old(bytes).pos()).1,
        ),
{
    let ghost s = bytes.bytes();
    let ghost p = bytes.pos();
    let start = bytes.start();
    let b_start = bytes.cursor();
    match_uri_vectored(bytes);
    let b_end = bytes.cursor();
    proof {
        lemma_scan(s, p, ByteClass::Uri);
    }
    let b = match bytes.next() {
        Some(b) => b,
        None => {
            return Ok(Status::Partial);
        },
    };
    if b == SP {
        // URI must have at least one char
        if b_end == b_start {
            return Err(Error::Token);
        }
        let uri = bytes.slice_skip(1);
        match str_from_utf8(uri) {
            Some(path) => {
                let end = bytes.cursor() - 1;
                match skip_spaces(bytes) {
                    Ok(Status::Complete(())) => {},
                    Ok(Status::Partial) => {
                        return Ok(Status::Partial);
                    },
                    Err(e) => {
                        return Err(e);
                    },
                }
                Ok(Status::Complete((path, SlicePos { start, end })))
            },
            None => Err(Error::Token),
        }
    } else {
        Err(Error::Token)
    }
}

/// Reads the line break under the cursor.
fn newline(bytes: &mut Bytes) -> (r: Result<Status<()>, Error>)
    requires
        old(bytes).st.cursor <= old(bytes).slice@.len(),
    ensures
        r == value_of(newline_spec(old(bytes).bytes(), old(bytes).pos())),
        is_complete(newline_spec(old(bytes).bytes(), old(bytes).pos())) ==> moved_to(
            *old(bytes),
            *final(bytes),
            end_of(newline_spec(old(bytes).bytes(), old(bytes).pos())),
        ),
        left_at(
            *old(bytes),
            *final(bytes),
            newline_stop(old(bytes).bytes(), old(bytes).pos()),
            if is_complete(newline_spec(old(bytes).bytes(), old(bytes).pos())) {
                newline_stop(old(bytes).bytes(), old(bytes).pos())
            } else {
                old(bytes).st.start as int
            },
        ),
{
    match bytes.next() {
        Some(b) => {
            if b == CR {
                match bytes.next() {
                    Some(b2) => {
                        if b2 != LF {
                            return Err(Error::NewLine);
                        }
                    },
                    None => {
                        return Ok(Status::Partial);
                    },
                }
                bytes.commit();
                Ok(Status::Complete(()))
            } else if b == LF {
                bytes.commit();
                Ok(Status::Complete(()))
            } else {
                Err(Error::NewLine)
            }
        },
        None => Ok(Status::Partial),
    }
}

fn parse_method_inner(bytes: &mut Bytes) -> (r: Result<Status<SlicePos>, Error>)
    requires
        old(bytes).st.cursor <= old(bytes).slice@.len(),
    ensures
        r == value_of(method_spec(old(bytes).bytes(), old(bytes).pos())),
        is_complete(method_spec(old(bytes).bytes(), old(bytes).pos())) ==> moved_to(
            *old(bytes),
            *final(bytes),
            end_of(method_spec(old(bytes).bytes(), old(bytes).pos())),
        ),
        left_at(
            *old(bytes),
            *final(bytes),
            method_after(old(bytes).bytes(), old(bytes).pos(), old(bytes).st.start as int).0,
            method_after(old(bytes).bytes(), old(bytes).pos(), old(bytes).st.start as int).1,
        ),
{
    let ghost s = bytes.bytes();
    match skip_empty_lines(bytes) {
        Ok(Status::Complete(())) => {},
        Ok(Status::Partial) => {
            return Ok(Status::Partial);
        },
        Err(e) => {
            return Err(e);
        },
    }
    let ghost p = bytes.pos();
    let four = bytes.peek_n(4);
    let is_get = match four {
        Some(w) => w[0] == 0x47 && w[1] == 0x45 && w[2] == 0x54 && w[3] == SP,
        None => false,
    };
    let is_post = match four {
        Some(w) => w[0] == 0x50 && w[1] == 0x4f && w[2] == 0x53 && w[3] == 0x54
            && bytes.peek_ahead(4) == Some(SP),
        None => false,
    };
    proof {
        assert(is_get == starts_with(s, p, get_sp())) by {
            if is_get {
                assert(s.subrange(p, p + 4) =~= get_sp());
            }
            if starts_with(s, p, get_sp()) {
                assert(s.subrange(p, p + 4)[3] == get_sp()[3]);
                assert(s.subrange(p, p + 4)[0] == get_sp()[0]);
                assert(s.subrange(p, p + 4)[1] == get_sp()[1]);
                assert(s.subrange(p, p + 4)[2] == get_sp()[2]);
            }
        }
        assert(is_post == starts_with(s, p, post_sp())) by {
            if is_post {
                assert(s.subrange(p, p + 5) =~= post_sp());
            }
            if starts_with(s, p, post_sp()) {
                assert(s.subrange(p, p + 5)[0] == post_sp()[0]);
                assert(s.subrange(p, p + 5)[1] == post_sp()[1]);
                assert(s.subrange(p, p + 5)[2] == post_sp()[2]);
                assert(s.subrange(p, p + 5)[3] == post_sp()[3]);
                assert(s.subrange(p, p + 5)[4] == post_sp()[4]);
            }
        }
    }
    if is_get {
        bytes.advance(4);
        let method = bytes.slice_position(1);
        match skip_spaces(bytes) {
            Ok(Status::Complete(())) => {},
            Ok(Status::Partial) => {
                return Ok(Status::Partial);
            },
            Err(e) => {
                return Err(e);
            },
        }
        Ok(Status::Complete(method))
    } else if is_post {
        bytes.advance(5);
        let method = bytes.slice_position(1);
        match skip_spaces(bytes) {
            Ok(Status::Complete(())) => {},
            Ok(Status::Partial) => {
                return Ok(Status::Partial);
            },
            Err(e) => {
                return Err(e);
            },
        }
        Ok(Status::Complete(method))
    } else {
        let b = match bytes.next() {
            Some(b) => b,
            None => {
                proof {
                    lemma_scan_ge(s, p, ByteClass::Token);
                }
                return Ok(Status::Partial);
            },
        };
        if !is_method_token(b) {
            // First char must be a token char, it can't be a space which
            // would indicate an empty token.
            proof {
                lemma_scan_unique(s, p, ByteClass::Token, p);
            }
            return Err(Error::Token);
        }
        loop
            invariant
                bytes.slice@ == s,
                s == old(bytes).bytes(),
                p < bytes.st.cursor <= s.len(),
                bytes.st.start == p,
                bytes.st.state == old(bytes).st.state,
                bytes.slice == old(bytes).slice,
                !starts_with(s, p, get_sp()),
                !starts_with(s, p, post_sp()),
                method_spec(s, old(bytes).pos()) == method_token_spec(s, p),
                method_after(s, old(bytes).pos(), old(bytes).st.start as int) == method_token_after(
                    s,
                    p,
                ),
                crate::utils::all_in(s, p, bytes.st.cursor as int, ByteClass::Token),
            decreases s.len() - bytes.st.cursor,
        {
            let ghost i = bytes.pos();
            let b = match bytes.next() {
                Some(b) => b,
                None => {
                    proof {
                        lemma_scan_skip(s, p, i, ByteClass::Token);
                        lemma_scan_ge(s, i, ByteClass::Token);
                    }
                    return Ok(Status::Partial);
                },
            };
            if b == SP {
                proof {
                    lemma_scan_skip(s, p, i, ByteClass::Token);
                    lemma_scan_unique(s, i, ByteClass::Token, i);
                }
                return Ok(Status::Complete(bytes.slice_position(1)));
            } else if !is_method_token(b) {
                proof {
                    lemma_scan_skip(s, p, i, ByteClass::Token);
                    lemma_scan_unique(s, i, ByteClass::Token, i);
                }
                return Err(Error::Token);
            }
        }
    }
}

} // verus!
