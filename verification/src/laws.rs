use vstd::prelude::*;

use crate::utils::{
    field_char, lemma_scan_extend, lemma_scan_inside,
    empty_lines_spec, lemma_empty_lines, lemma_scan_unique, end_of, is_complete, lemma_scan, lemma_scan_ge, lemma_scan_prefix,
    scan, spaces_spec, ByteClass, Step, CR, LF, SP,
};
use crate::request::{
    get_sp, lemma_method_tokens, method_spec, method_token_spec, newline_spec,
    post_sp, request_spec, starts_with, uri_spec, Request,
};
use crate::headers::{
    gap_spec, header_spec, line_start_spec, name_spec, trim_end, value_spec, Header, HeaderOutcome,
};
use crate::chunk::{chunk_size_spec, SEMICOLON};
use crate::response::{code_spec, has_obs_text, reason_spec, response_spec, status_tail_spec, Response};
use crate::version::{version_bytes, version_prefix, version_spec};
use crate::{SlicePos, State, Status};
use crate::utils::tchar;
use vstd::utf8::valid_utf8;

verus! {

/// `a`, the outcome on a prefix, is partial or agrees with `b`.
pub open spec fn partial_or_same<T>(a: Step<T>, b: Step<T>) -> bool {
    (a matches Ok(Status::Partial)) || a == b
}

/// The prefix laws of one step at `p`: on the first `i` bytes the step is
/// partial or ends as on the whole buffer, and a step that completes before
/// `i` (`strict`) or at `i` at the latest completes alike.
pub open spec fn prefix_laws<T>(whole: Step<T>, part: Step<T>, i: int, strict: bool) -> bool {
    &&& partial_or_same(part, whole)
    &&& (is_complete(whole) && (if strict { end_of(whole) < i } else { end_of(whole) <= i }))
        ==> part == whole
}

/// Skipping empty lines on a prefix is partial or ends as on the whole buffer.
pub proof fn lemma_empty_lines_prefix(s: Seq<u8>, p: int, i: int)
    requires
        0 <= p <= i <= s.len(),
    ensures
        prefix_laws(empty_lines_spec(s, p), empty_lines_spec(s.take(i), p), i, true),
    decreases s.len() - p,
{
    let t = s.take(i);
    assert(t.len() == i);
    if p < i {
        assert(t[p] == s[p]);
        if s[p] == CR {
            if p + 1 < i {
                assert(t[p + 1] == s[p + 1]);
                if s[p + 1] == LF {
                    lemma_empty_lines_prefix(s, p + 2, i);
                }
            } else if p + 1 < s.len() && s[p + 1] == LF {
                lemma_empty_lines(s, p + 2);
            }
        } else if s[p] == LF {
            lemma_empty_lines_prefix(s, p + 1, i);
        }
    } else {
        lemma_empty_lines(s, p);
    }
}

/// Skipping spaces on a prefix is partial or ends as on the whole buffer.
pub proof fn lemma_spaces_prefix(s: Seq<u8>, p: int, i: int)
    requires
        0 <= p <= i <= s.len(),
    ensures
        prefix_laws(spaces_spec(s, p), spaces_spec(s.take(i), p), i, true),
{
    lemma_scan_prefix(s, p, ByteClass::Space, i);
}

/// The bounds of a step at `p`: on completion it stopped at or after `p`
/// (after it, where `strict`) and within the buffer.
pub open spec fn step_bounds<T>(r: Step<T>, p: int, len: int, strict: bool) -> bool {
    is_complete(r) ==> (if strict { p < end_of(r) } else { p <= end_of(r) }) && end_of(r) <= len
}

/// The method of a request line (`parse_method` at `p == 0`) is read as a
/// push parser reads: on a prefix it is partial or ends as on the whole
/// buffer, alike where it completes before the prefix ends; a completed
/// method ends after its start and within the buffer.
pub proof fn lemma_method_prefix(s: Seq<u8>, p: int, i: int)
    requires
        0 <= p <= i <= s.len() <= usize::MAX,
    ensures
        prefix_laws(method_spec(s, p), method_spec(s.take(i), p), i, true),
        step_bounds(method_spec(s, p), p, s.len() as int, true),
        step_bounds(method_spec(s.take(i), p), p, i, true),
{
    let t = s.take(i);
    lemma_empty_lines_prefix(s, p, i);
    lemma_empty_lines(s, p);
    lemma_empty_lines(t, p);
    if is_complete(method_spec(s, p)) {
        lemma_method_tokens(s, p);
    }
    if is_complete(method_spec(t, p)) {
        lemma_method_tokens(t, p);
    }
    if is_complete(empty_lines_spec(t, p)) {
        let p1 = end_of(empty_lines_spec(t, p));
        lemma_method_token_prefix(s, p1, i);
    }
}

/// The method token on a prefix is partial or ends as on the whole buffer.
pub proof fn lemma_method_token_prefix(s: Seq<u8>, p: int, i: int)
    requires
        0 <= p <= i <= s.len(),
    ensures
        prefix_laws(method_token_spec(s, p), method_token_spec(s.take(i), p), i, true),
{
    let t = s.take(i);
    assert(t.len() == i);
    if starts_with(s, p, get_sp()) {
        if p + 4 <= i {
            assert(t.subrange(p, p + 4) =~= s.subrange(p, p + 4));
            lemma_scan_prefix(s, p + 4, ByteClass::Space, i);
            lemma_scan_ge(s, p + 4, ByteClass::Space);
        } else {
            assert(!starts_with(t, p, get_sp()));
            assert(!starts_with(t, p, post_sp()));
            lemma_known_prefix_tokens(s, p, i, 3);
            lemma_scan_ge(s, p + 4, ByteClass::Space);
        }
    } else if starts_with(s, p, post_sp()) {
        if p + 5 <= i {
            assert(t.subrange(p, p + 5) =~= s.subrange(p, p + 5));
            assert(!starts_with(t, p, get_sp())) by {
                if starts_with(t, p, get_sp()) {
                    assert(t.subrange(p, p + 4)[0] == s.subrange(p, p + 5)[0]);
                }
            }
            lemma_scan_prefix(s, p + 5, ByteClass::Space, i);
            lemma_scan_ge(s, p + 5, ByteClass::Space);
        } else {
            assert(!starts_with(t, p, get_sp())) by {
                if starts_with(t, p, get_sp()) {
                    assert(t.subrange(p, p + 4)[0] == s.subrange(p, p + 5)[0]);
                }
            }
            assert(!starts_with(t, p, post_sp()));
            lemma_known_prefix_tokens(s, p, i, 4);
            lemma_scan_ge(s, p + 5, ByteClass::Space);
        }
    } else {
        assert(!starts_with(t, p, get_sp())) by {
            if starts_with(t, p, get_sp()) {
                assert(t.subrange(p, p + 4) =~= s.subrange(p, p + 4));
            }
        }
        assert(!starts_with(t, p, post_sp())) by {
            if starts_with(t, p, post_sp()) {
                assert(t.subrange(p, p + 5) =~= s.subrange(p, p + 5));
            }
        }
        lemma_scan_prefix(s, p, ByteClass::Token, i);
        lemma_scan_ge(s, p, ByteClass::Token);
    }
}

/// A prefix cut inside a known method, before the space that ends it, scans
/// as a run of tokens up to its end.
proof fn lemma_known_prefix_tokens(s: Seq<u8>, p: int, i: int, k: int)
    requires
        0 <= p <= i <= p + k,
        k == 3 || k == 4,
        k == 3 ==> starts_with(s, p, get_sp()),
        k == 4 ==> starts_with(s, p, post_sp()),
    ensures
        scan(s.take(i), p, ByteClass::Token) == i,
{
    let t = s.take(i);
    let pat = if k == 3 { get_sp() } else { post_sp() };
    assert forall|j: int| p <= j < i implies #[trigger] crate::utils::in_class(ByteClass::Token, t[j]) by {
        assert(t[j] == s.subrange(p, p + pat.len())[j - p]);
    }
    crate::utils::lemma_scan_unique(t, p, ByteClass::Token, i);
}

/// The request target (`parse_uri` at `p == 0`) is read as a push parser
/// reads: on a prefix it is partial or ends as on the whole buffer, alike
/// where it completes before the prefix ends.
pub proof fn lemma_uri_prefix(s: Seq<u8>, p: int, i: int)
    requires
        0 <= p <= i <= s.len(),
    ensures
        prefix_laws(uri_spec(s, p), uri_spec(s.take(i), p), i, true),
        step_bounds(uri_spec(s, p), p, s.len() as int, true),
        step_bounds(uri_spec(s.take(i), p), p, i, true),
{
    let t = s.take(i);
    lemma_scan_prefix(s, p, ByteClass::Uri, i);
    lemma_scan(s, p, ByteClass::Uri);
    lemma_scan(t, p, ByteClass::Uri);
    let e = scan(s, p, ByteClass::Uri);
    if e < i {
        assert(t.subrange(p, e) =~= s.subrange(p, e));
        lemma_scan_prefix(s, e + 1, ByteClass::Space, i);
        lemma_scan_ge(s, e + 1, ByteClass::Space);
        lemma_scan_ge(t, e + 1, ByteClass::Space);
    } else if e < s.len() {
        lemma_scan_ge(s, e + 1, ByteClass::Space);
    }
}

/// The HTTP version (`parse_version` at `p == 0`) is read as a push parser
/// reads: on a prefix it is partial or ends as on the whole buffer, alike
/// where the prefix holds all eight bytes.
pub proof fn lemma_version_prefix(s: Seq<u8>, p: int, i: int)
    requires
        0 <= p <= i <= s.len(),
    ensures
        prefix_laws(version_spec(s, p), version_spec(s.take(i), p), i, false),
        step_bounds(version_spec(s, p), p, s.len() as int, true),
        step_bounds(version_spec(s.take(i), p), p, i, true),
{
    let t = s.take(i);
    if p + 8 <= i {
        assert(t.subrange(p, p + 8) =~= s.subrange(p, p + 8));
    } else {
        let tp = t.subrange(p, i);
        if p + 8 <= s.len() {
            let w = s.subrange(p, p + 8);
            if w == version_bytes(0) || w == version_bytes(1) {
                assert(version_prefix().take(i - p) =~= tp) by {
                    assert forall|k: int| 0 <= k < i - p implies version_prefix()[k] == tp[k] by {
                        assert(tp[k] == w[k]);
                    }
                }
            }
        } else {
            let sp = s.subrange(p, s.len() as int);
            if version_prefix().take(s.len() - p) == sp {
                assert(version_prefix().take(i - p) =~= tp) by {
                    assert forall|k: int| 0 <= k < i - p implies version_prefix()[k] == tp[k] by {
                        assert(tp[k] == sp[k]);
                        assert(version_prefix().take(s.len() - p)[k] == version_prefix()[k]);
                    }
                }
            }
        }
    }
}

/// A line break on a prefix is partial or ends as on the whole buffer.
pub proof fn lemma_newline_prefix(s: Seq<u8>, p: int, i: int)
    requires
        0 <= p <= i <= s.len(),
    ensures
        prefix_laws(newline_spec(s, p), newline_spec(s.take(i), p), i, false),
        step_bounds(newline_spec(s, p), p, s.len() as int, true),
        step_bounds(newline_spec(s.take(i), p), p, i, true),
{
    let t = s.take(i);
    if p < i {
        assert(t[p] == s[p]);
        if p + 1 < i {
            assert(t[p + 1] == s[p + 1]);
        }
    }
}

/// A request line is read as a push parser reads: on the first `i` bytes
/// of a buffer, `Request::parse` is partial or ends as on the whole buffer
/// (the request it leaves included). Where it completes on the whole buffer
/// with `n` bytes, every shorter prefix is partial and every prefix of at
/// least `n` bytes completes alike.
pub proof fn law_request_prefix(req: Request, s: Seq<u8>, i: int)
    requires
        0 <= i <= s.len() <= usize::MAX,
    ensures
        (request_spec(req, s.take(i)).1 matches Ok(Status::Partial)) || request_spec(req, s.take(i))
            == request_spec(req, s),
        request_spec(req, s).1 matches Ok(Status::Complete(n)) ==> (if i < n {
            request_spec(req, s.take(i)).1 matches Ok(Status::Partial)
        } else {
            request_spec(req, s.take(i)) == request_spec(req, s)
        }),
{
    let t = s.take(i);
    lemma_method_prefix(s, 0, i);
    let m = method_spec(t, 0);
    if is_complete(m) {
        let p1 = end_of(m);
        lemma_uri_prefix(s, p1, i);
        let u = uri_spec(t, p1);
        if is_complete(u) {
            let p2 = end_of(u);
            lemma_version_prefix(s, p2, i);
            let v = version_spec(t, p2);
            if is_complete(v) {
                let p3 = end_of(v);
                lemma_newline_prefix(s, p3, i);
            }
        }
    }
    if request_spec(req, s).1 is Ok && request_spec(req, s).1->Ok_0 is Complete {
        let ms = method_spec(s, 0);
        let q1 = end_of(ms);
        lemma_uri_prefix(s, q1, s.len() as int);
        let q2 = end_of(uri_spec(s, q1));
        lemma_version_prefix(s, q2, s.len() as int);
        let q3 = end_of(version_spec(s, q2));
        lemma_newline_prefix(s, q3, s.len() as int);
    }
}

/// A status code on a prefix is partial or ends as on the whole buffer.
pub proof fn lemma_code_prefix(s: Seq<u8>, p: int, i: int)
    requires
        0 <= p <= i <= s.len(),
    ensures
        prefix_laws(code_spec(s, p), code_spec(s.take(i), p), i, false),
        step_bounds(code_spec(s, p), p, s.len() as int, true),
        step_bounds(code_spec(s.take(i), p), p, i, true),
{
    let t = s.take(i);
    if p < i {
        assert(t[p] == s[p]);
    }
    if p + 1 < i {
        assert(t[p + 1] == s[p + 1]);
    }
    if p + 2 < i {
        assert(t[p + 2] == s[p + 2]);
    }
}

/// A reason phrase on a prefix is partial or ends as on the whole buffer.
pub proof fn lemma_reason_prefix(s: Seq<u8>, p: int, i: int)
    requires
        0 <= p <= i <= s.len(),
    ensures
        prefix_laws(reason_spec(s, p), reason_spec(s.take(i), p), i, false),
        step_bounds(reason_spec(s, p), p, s.len() as int, true),
        step_bounds(reason_spec(s.take(i), p), p, i, true),
{
    let t = s.take(i);
    lemma_scan_prefix(s, p, ByteClass::Field, i);
    lemma_scan(s, p, ByteClass::Field);
    lemma_scan(t, p, ByteClass::Field);
    let e = scan(s, p, ByteClass::Field);
    if e < i {
        assert(has_obs_text(t, p, e) == has_obs_text(s, p, e)) by {
            if has_obs_text(s, p, e) {
                let k = choose|k: int| p <= k < e && #[trigger] s[k] >= 0x80;
                assert(t[k] >= 0x80);
            }
            if has_obs_text(t, p, e) {
                let k = choose|k: int| p <= k < e && #[trigger] t[k] >= 0x80;
                assert(s[k] >= 0x80);
            }
        }
        if e + 1 < i {
            assert(t[e + 1] == s[e + 1]);
        }
    }
}

/// The status line's tail on a prefix.
proof fn lemma_status_tail_prefix(res: Response, s: Seq<u8>, q: int, i: int)
    requires
        0 <= q <= i <= s.len() <= usize::MAX,
    ensures
        (status_tail_spec(res, s.take(i), q).1 matches Ok(Status::Partial)) || status_tail_spec(
            res,
            s.take(i),
            q,
        ) == status_tail_spec(res, s, q),
        status_tail_spec(res, s, q).1 matches Ok(Status::Complete(n)) ==> q < n <= s.len() && (n
            <= i ==> status_tail_spec(res, s.take(i), q) == status_tail_spec(res, s, q)),
        status_tail_spec(res, s.take(i), q).1 matches Ok(Status::Complete(n)) ==> n <= i,
{
    let t = s.take(i);
    if q < i {
        assert(t[q] == s[q]);
        if q + 1 < i {
            assert(t[q + 1] == s[q + 1]);
        }
        lemma_spaces_prefix(s, q + 1, i);
        lemma_spaces_bounds(s, q + 1);
        lemma_spaces_bounds(t, q + 1);
        let sp = crate::utils::spaces_spec(t, q + 1);
        if is_complete(sp) {
            let p4 = end_of(sp);
            lemma_reason_prefix(s, p4, i);
        }
        let sps = crate::utils::spaces_spec(s, q + 1);
        if is_complete(sps) {
            lemma_reason_prefix(s, end_of(sps), s.len() as int);
        }
    } else if q < s.len() {
        lemma_spaces_bounds(s, q + 1);
        let sps = crate::utils::spaces_spec(s, q + 1);
        if is_complete(sps) {
            lemma_reason_prefix(s, end_of(sps), s.len() as int);
        }
    }
}

/// Skipping spaces stops within the buffer.
pub proof fn lemma_spaces_bounds(s: Seq<u8>, p: int)
    requires
        0 <= p <= s.len(),
    ensures
        step_bounds(spaces_spec(s, p), p, s.len() as int, false),
{
    lemma_scan(s, p, ByteClass::Space);
}

/// A status line is read as a push parser reads: on the first `i` bytes of
/// a buffer, `Response::parse` is partial or ends as on the whole buffer
/// (the response it leaves included). Where it completes on the whole
/// buffer with `n` bytes, every shorter prefix is partial and every prefix
/// of at least `n` bytes completes alike.
pub proof fn law_response_prefix(res: Response, s: Seq<u8>, i: int)
    requires
        0 <= i <= s.len() <= usize::MAX,
    ensures
        (response_spec(res, s.take(i)).1 matches Ok(Status::Partial)) || response_spec(res, s.take(i))
            == response_spec(res, s),
        response_spec(res, s).1 matches Ok(Status::Complete(n)) ==> (if i < n {
            response_spec(res, s.take(i)).1 matches Ok(Status::Partial)
        } else {
            response_spec(res, s.take(i)) == response_spec(res, s)
        }),
{
    let t = s.take(i);
    let n = s.len() as int;
    lemma_empty_lines_prefix(s, 0, i);
    lemma_empty_lines(s, 0);
    lemma_empty_lines(t, 0);
    let e1 = empty_lines_spec(t, 0);
    if is_complete(e1) {
        let p1 = end_of(e1);
        lemma_version_prefix(s, p1, i);
        let v = version_spec(t, p1);
        if is_complete(v) {
            let q1 = end_of(v);
            lemma_empty_lines_prefix(s, q1, i);
            lemma_empty_lines(s, q1);
            lemma_empty_lines(t, q1);
            let e2 = empty_lines_spec(t, q1);
            if is_complete(e2) {
                let p2 = end_of(e2);
                assert(t[p2] == s[p2]);
                lemma_spaces_prefix(s, p2 + 1, i);
                lemma_spaces_bounds(t, p2 + 1);
                let sp = spaces_spec(t, p2 + 1);
                if is_complete(sp) {
                    let p3 = end_of(sp);
                    lemma_code_prefix(s, p3, i);
                    let c = code_spec(t, p3);
                    if is_complete(c) {
                        let (code, q3) = c->Ok_0->Complete_0;
                        lemma_status_tail_prefix(
                            Response { version: v->Ok_0->Complete_0.0, code: code, reason: res.reason },
                            s,
                            q3,
                            i,
                        );
                    }
                }
            }
        }
    }
    let e1s = empty_lines_spec(s, 0);
    if is_complete(e1s) {
        let p1 = end_of(e1s);
        lemma_version_prefix(s, p1, n);
        let v = version_spec(s, p1);
        if is_complete(v) {
            let q1 = end_of(v);
            lemma_empty_lines(s, q1);
            let e2 = empty_lines_spec(s, q1);
            if is_complete(e2) {
                let p2 = end_of(e2);
                lemma_spaces_bounds(s, p2 + 1);
                let sp = spaces_spec(s, p2 + 1);
                if is_complete(sp) {
                    let p3 = end_of(sp);
                    lemma_code_prefix(s, p3, n);
                    let c = code_spec(s, p3);
                    if is_complete(c) {
                        let (code, q3) = c->Ok_0->Complete_0;
                        lemma_status_tail_prefix(
                            Response { version: v->Ok_0->Complete_0.0, code: code, reason: res.reason },
                            s,
                            q3,
                            n,
                        );
                    }
                }
            }
        }
    }
}

/// A chunk-size line is read as a push parser reads: on the first `i`
/// bytes of a buffer, `parse_chunk_size` is partial or ends as on the whole
/// buffer. Where it completes on the whole buffer with a line of `n` bytes,
/// every shorter prefix is partial and every prefix of at least `n` bytes
/// completes alike.
pub proof fn law_chunk_size_prefix(s: Seq<u8>, i: int)
    requires
        0 <= i <= s.len() <= usize::MAX,
    ensures
        (chunk_size_spec(s.take(i)) matches Ok(Status::Partial)) || chunk_size_spec(s.take(i))
            == chunk_size_spec(s),
        chunk_size_spec(s) matches Ok(Status::Complete((n, _))) ==> (if i < n {
            chunk_size_spec(s.take(i)) matches Ok(Status::Partial)
        } else {
            chunk_size_spec(s.take(i)) == chunk_size_spec(s)
        }),
{
    let t = s.take(i);
    lemma_scan(s, 0, ByteClass::Hex);
    lemma_scan_prefix(s, 0, ByteClass::Hex, i);
    let h = scan(s, 0, ByteClass::Hex);
    lemma_scan(s, h, ByteClass::Lws);
    let w = scan(s, h, ByteClass::Lws);
    if h < i {
        lemma_scan_prefix(s, h, ByteClass::Lws, i);
        assert(t.take(h) =~= s.take(h));
        if w < i {
            assert(t[w] == s[w]);
            if s[w] == SEMICOLON {
                lemma_scan_prefix(s, w + 1, ByteClass::NotCr, i);
                lemma_scan(s, w + 1, ByteClass::NotCr);
                let r = scan(s, w + 1, ByteClass::NotCr);
                if r + 1 < i {
                    assert(t[r + 1] == s[r + 1]);
                }
            } else if s[w] == CR {
                if w + 1 < i {
                    assert(t[w + 1] == s[w + 1]);
                }
            }
        } else if w < s.len() && s[w] == SEMICOLON {
            lemma_scan(s, w + 1, ByteClass::NotCr);
        }
    } else {
        lemma_scan_ge(t, i, ByteClass::Lws);
        if h < s.len() {
            lemma_scan(s, h, ByteClass::Lws);
            if w < s.len() && s[w] == SEMICOLON {
                lemma_scan(s, w + 1, ByteClass::NotCr);
            }
        }
    }
}

/// The prefix laws of a header parse: on the first `i` bytes it is partial
/// or leaves all as on the whole buffer; where it completes on the whole
/// buffer at a cursor within the prefix it completes alike; and where it
/// completes on the prefix, its cursor stays within it.
pub open spec fn header_prefix_laws(whole: HeaderOutcome, part: HeaderOutcome, i: int) -> bool {
    &&& (part.2 matches Ok(Status::Partial)) || part == whole
    &&& ((whole.2 matches Ok(Status::Complete(_))) && whole.0.cursor <= i) ==> part == whole
    &&& (part.2 matches Ok(Status::Complete(_))) ==> part.0.cursor <= i
}

proof fn lemma_trim_end_prefix(s: Seq<u8>, q: int, i: int)
    requires
        0 <= q <= i <= s.len(),
    ensures
        trim_end(s.take(i), q) == trim_end(s, q),
    decreases q,
{
    if 0 < q {
        assert(s.take(i)[q - 1] == s[q - 1]);
        lemma_trim_end_prefix(s, q - 1, i);
    }
}

proof fn lemma_value_prefix(st: State, h: Header, s: Seq<u8>, i: int)
    requires
        0 <= i <= s.len() <= usize::MAX,
    ensures
        header_prefix_laws(value_spec(st, h, s), value_spec(st, h, s.take(i)), i),
{
    let t = s.take(i);
    let c = st.cursor as int;
    lemma_scan_ge(s, c, ByteClass::Field);
    lemma_scan_ge(t, c, ByteClass::Field);
    if c <= i {
        lemma_scan_prefix(s, c, ByteClass::Field, i);
        lemma_scan(s, c, ByteClass::Field);
        let e = scan(s, c, ByteClass::Field);
        if e < i {
            assert(t[e] == s[e]);
            if e + 1 < i {
                assert(t[e + 1] == s[e + 1]);
                lemma_trim_end_prefix(s, e + 2, i);
            }
            lemma_trim_end_prefix(s, e + 1, i);
        }
    }
}

proof fn lemma_gap_prefix(st: State, h: Header, s: Seq<u8>, i: int)
    requires
        0 <= i <= s.len() <= usize::MAX,
    ensures
        header_prefix_laws(gap_spec(st, h, s), gap_spec(st, h, s.take(i)), i),
{
    let t = s.take(i);
    let c = st.cursor as int;
    lemma_scan_ge(s, c, ByteClass::Lws);
    lemma_scan_ge(t, c, ByteClass::Lws);
    let w = scan(s, c, ByteClass::Lws);
    let st3 = State { start: st.start, cursor: (w + 1) as usize, state: 3 };
    let h3 = Header { name: h.name, value: SlicePos { start: w as usize, end: h.value.end } };
    if c <= s.len() {
        lemma_scan(s, c, ByteClass::Lws);
    }
    if w < s.len() {
        lemma_value_bounds(st3, h3, s);
    }
    if c <= i {
        lemma_scan_prefix(s, c, ByteClass::Lws, i);
        if w < i {
            assert(t[w] == s[w]);
            if w + 1 < i {
                assert(t[w + 1] == s[w + 1]);
            }
            lemma_value_prefix(st3, h3, s, i);
        }
    }
}

/// A value that completes does so past its cursor.
proof fn lemma_value_bounds(st: State, h: Header, s: Seq<u8>)
    requires
        s.len() <= usize::MAX,
    ensures
        value_spec(st, h, s).2 matches Ok(Status::Complete(_)) ==> st.cursor < value_spec(st, h, s).0.cursor <= s.len(),
{
    lemma_scan_ge(s, st.cursor as int, ByteClass::Field);
    if st.cursor <= s.len() {
        lemma_scan(s, st.cursor as int, ByteClass::Field);
    }
}

proof fn lemma_gap_bounds(st: State, h: Header, s: Seq<u8>)
    requires
        s.len() <= usize::MAX,
    ensures
        gap_spec(st, h, s).2 matches Ok(Status::Complete(_)) ==> st.cursor < gap_spec(st, h, s).0.cursor <= s.len(),
{
    let c = st.cursor as int;
    lemma_scan_ge(s, c, ByteClass::Lws);
    let w = scan(s, c, ByteClass::Lws);
    if c <= s.len() {
        lemma_scan(s, c, ByteClass::Lws);
    }
    if w < s.len() {
        lemma_value_bounds(
            State { start: st.start, cursor: (w + 1) as usize, state: 3 },
            Header { name: h.name, value: SlicePos { start: w as usize, end: h.value.end } },
            s,
        );
    }
}

proof fn lemma_name_bounds(st: State, h: Header, s: Seq<u8>)
    requires
        s.len() <= usize::MAX,
    ensures
        name_spec(st, h, s).2 matches Ok(Status::Complete(_)) ==> st.cursor < name_spec(st, h, s).0.cursor <= s.len(),
{
    let c = st.cursor as int;
    lemma_scan_ge(s, c, ByteClass::Token);
    let e = scan(s, c, ByteClass::Token);
    if c <= s.len() {
        lemma_scan(s, c, ByteClass::Token);
    }
    if e < s.len() {
        lemma_gap_bounds(
            State { start: st.start, cursor: (e + 1) as usize, state: 2 },
            Header { name: SlicePos { start: h.name.start, end: e as usize }, value: h.value },
            s,
        );
    }
}

proof fn lemma_name_prefix(st: State, h: Header, s: Seq<u8>, i: int)
    requires
        0 <= i <= s.len() <= usize::MAX,
    ensures
        header_prefix_laws(name_spec(st, h, s), name_spec(st, h, s.take(i)), i),
{
    let t = s.take(i);
    let c = st.cursor as int;
    lemma_scan_ge(s, c, ByteClass::Token);
    lemma_scan_ge(t, c, ByteClass::Token);
    let e = scan(s, c, ByteClass::Token);
    let st2 = State { start: st.start, cursor: (e + 1) as usize, state: 2 };
    let h2 = Header { name: SlicePos { start: h.name.start, end: e as usize }, value: h.value };
    if c <= s.len() {
        lemma_scan(s, c, ByteClass::Token);
    }
    if e < s.len() {
        lemma_gap_bounds(st2, h2, s);
    }
    if c <= i {
        lemma_scan_prefix(s, c, ByteClass::Token, i);
        if e < i {
            assert(t[e] == s[e]);
            lemma_gap_prefix(st2, h2, s, i);
        }
    }
}

proof fn lemma_line_start_prefix(st: State, h: Header, s: Seq<u8>, i: int)
    requires
        0 <= i <= s.len() <= usize::MAX,
    ensures
        header_prefix_laws(line_start_spec(st, h, s), line_start_spec(st, h, s.take(i)), i),
        line_start_spec(st, h, s).2 matches Ok(Status::Complete(_)) ==> st.cursor < line_start_spec(st, h, s).0.cursor,
{
    let t = s.take(i);
    let c = st.cursor as int;
    let st1 = State { start: st.start, cursor: (c + 1) as usize, state: 1 };
    let h1 = Header { name: SlicePos { start: c as usize, end: h.name.end }, value: h.value };
    if c < s.len() {
        lemma_name_bounds(st1, h1, s);
    }
    if c < i {
        assert(t[c] == s[c]);
        if c + 1 < i {
            assert(t[c + 1] == s[c + 1]);
        }
        lemma_name_prefix(st1, h1, s, i);
    }
}

/// A header line is read as a push parser reads, from any parse state: on
/// the first `i` bytes of a buffer, `Header::parse_with_state` is partial
/// or leaves state, header and result as on the whole buffer. Where it
/// completes on the whole buffer, with its cursor at `q`, every prefix of
/// at least `q` bytes completes alike, and every shorter one is partial
/// (where the state is one of the four parts of a line: from any other
/// state the parse completes at once, reading nothing).
pub proof fn law_header_prefix(st: State, h: Header, s: Seq<u8>, i: int)
    requires
        0 <= i <= s.len() <= usize::MAX,
    ensures
        (header_spec(st, h, s.take(i)).2 matches Ok(Status::Partial)) || header_spec(st, h, s.take(i))
            == header_spec(st, h, s),
        header_spec(st, h, s).2 matches Ok(Status::Complete(_)) ==> {
            let q = header_spec(st, h, s).0.cursor;
            &&& i >= q ==> header_spec(st, h, s.take(i)) == header_spec(st, h, s)
            &&& i < q && st.state <= 3 ==> header_spec(st, h, s.take(i)).2 matches Ok(
                Status::Partial,
            )
        },
{
    if st.state == 0 {
        lemma_line_start_prefix(st, h, s, i);
    } else if st.state == 1 {
        lemma_name_prefix(st, h, s, i);
    } else if st.state == 2 {
        lemma_gap_prefix(st, h, s, i);
    } else if st.state == 3 {
        lemma_value_prefix(st, h, s, i);
    }
}

/// A partial header parse that stopped at `st1` (starting from `st`) cannot
/// be resumed faithfully on the longer buffer: it stopped just after a CR,
/// the byte after it is no LF, and it is one that a fresh parse would read
/// otherwise than as the wrong end of a line.
pub open spec fn resume_breaks(st: State, st1: State, s: Seq<u8>, i: int) -> bool {
    &&& st1.cursor > st.cursor
    &&& 0 < i < s.len()
    &&& s[i - 1] == CR
    &&& s[i] != LF
    &&& (st1.state == 0 || field_char(s[i]) || s[i] == CR)
}

proof fn lemma_value_resume(st: State, h: Header, s: Seq<u8>, i: int)
    requires
        0 <= i <= s.len() <= usize::MAX,
        st.state == 3,
        value_spec(st, h, s.take(i)).2 matches Ok(Status::Partial),
        !resume_breaks(st, value_spec(st, h, s.take(i)).0, s, i),
    ensures
        header_spec(value_spec(st, h, s.take(i)).0, value_spec(st, h, s.take(i)).1, s) == value_spec(
            st,
            h,
            s,
        ),
{
    let t = s.take(i);
    let c = st.cursor as int;
    lemma_scan_ge(s, c, ByteClass::Field);
    lemma_scan_ge(t, c, ByteClass::Field);
    if c < i {
        lemma_scan_prefix(s, c, ByteClass::Field, i);
        lemma_scan(s, c, ByteClass::Field);
        let e = scan(s, c, ByteClass::Field);
        if e >= i {
            lemma_scan_inside(s, c, i, ByteClass::Field);
        } else {
            assert(t[e] == s[e]);
            lemma_scan_ge(s, i, ByteClass::Field);
            if i < s.len() && !field_char(s[i]) {
                lemma_scan_unique(s, i, ByteClass::Field, i);
            }
        }
    }
}

proof fn lemma_gap_resume(st: State, h: Header, s: Seq<u8>, i: int)
    requires
        0 <= i <= s.len() <= usize::MAX,
        st.state == 2,
        gap_spec(st, h, s.take(i)).2 matches Ok(Status::Partial),
        !resume_breaks(st, gap_spec(st, h, s.take(i)).0, s, i),
    ensures
        header_spec(gap_spec(st, h, s.take(i)).0, gap_spec(st, h, s.take(i)).1, s) == gap_spec(
            st,
            h,
            s,
        ),
{
    let t = s.take(i);
    let c = st.cursor as int;
    lemma_scan_ge(s, c, ByteClass::Lws);
    lemma_scan_ge(t, c, ByteClass::Lws);
    if c < i {
        lemma_scan_prefix(s, c, ByteClass::Lws, i);
        lemma_scan(s, c, ByteClass::Lws);
        let w = scan(s, c, ByteClass::Lws);
        if w >= i {
            lemma_scan_inside(s, c, i, ByteClass::Lws);
        } else {
            assert(t[w] == s[w]);
            if field_char(s[w]) {
                let st3 = State { start: st.start, cursor: (w + 1) as usize, state: 3 };
                let h3 = Header { name: h.name, value: SlicePos { start: w as usize, end: h.value.end } };
                lemma_value_resume(st3, h3, s, i);
            } else {
                lemma_scan_ge(s, i, ByteClass::Lws);
                if i < s.len() && !crate::utils::lws(s[i]) {
                    lemma_scan_unique(s, i, ByteClass::Lws, i);
                }
            }
        }
    }
}

proof fn lemma_name_resume(st: State, h: Header, s: Seq<u8>, i: int)
    requires
        0 <= i <= s.len() <= usize::MAX,
        st.state == 1,
        name_spec(st, h, s.take(i)).2 matches Ok(Status::Partial),
        !resume_breaks(st, name_spec(st, h, s.take(i)).0, s, i),
    ensures
        header_spec(name_spec(st, h, s.take(i)).0, name_spec(st, h, s.take(i)).1, s) == name_spec(
            st,
            h,
            s,
        ),
{
    let t = s.take(i);
    let c = st.cursor as int;
    lemma_scan_ge(s, c, ByteClass::Token);
    lemma_scan_ge(t, c, ByteClass::Token);
    if c < i {
        lemma_scan_prefix(s, c, ByteClass::Token, i);
        lemma_scan(s, c, ByteClass::Token);
        let e = scan(s, c, ByteClass::Token);
        if e >= i {
            lemma_scan_inside(s, c, i, ByteClass::Token);
        } else {
            assert(t[e] == s[e]);
            let st2 = State { start: st.start, cursor: (e + 1) as usize, state: 2 };
            let h2 = Header { name: SlicePos { start: h.name.start, end: e as usize }, value: h.value };
            lemma_gap_resume(st2, h2, s, i);
        }
    }
}

proof fn lemma_line_start_resume(st: State, h: Header, s: Seq<u8>, i: int)
    requires
        0 <= i <= s.len() <= usize::MAX,
        st.state == 0,
        line_start_spec(st, h, s.take(i)).2 matches Ok(Status::Partial),
        !resume_breaks(st, line_start_spec(st, h, s.take(i)).0, s, i),
    ensures
        header_spec(line_start_spec(st, h, s.take(i)).0, line_start_spec(st, h, s.take(i)).1, s)
            == line_start_spec(st, h, s),
{
    let t = s.take(i);
    let c = st.cursor as int;
    if c < i {
        assert(t[c] == s[c]);
        if s[c] != CR && s[c] != LF && crate::utils::tchar(s[c]) {
            let st1 = State { start: st.start, cursor: (c + 1) as usize, state: 1 };
            let h1 = Header { name: SlicePos { start: c as usize, end: h.name.end }, value: h.value };
            lemma_name_resume(st1, h1, s, i);
        }
    }
}

/// A header parse can be resumed: where `Header::parse_with_state` stops
/// partial on the first `i` bytes of a buffer, calling it again on the
/// whole buffer with the state and header it left gives what one call on
/// the whole buffer gives from the first state. The one exception: the
/// first call stopped just after a CR, the byte after it is no LF, and a
/// fresh parse would read that byte as something else than the bad end of
/// a line (`resume_breaks`).
pub proof fn law_header_resume(st: State, h: Header, s: Seq<u8>, i: int)
    requires
        0 <= i <= s.len() <= usize::MAX,
        header_spec(st, h, s.take(i)).2 matches Ok(Status::Partial),
        !resume_breaks(st, header_spec(st, h, s.take(i)).0, s, i),
    ensures
        header_spec(header_spec(st, h, s.take(i)).0, header_spec(st, h, s.take(i)).1, s)
            == header_spec(st, h, s),
{
    if st.state == 0 {
        lemma_line_start_resume(st, h, s, i);
    } else if st.state == 1 {
        lemma_name_resume(st, h, s, i);
    } else if st.state == 2 {
        lemma_gap_resume(st, h, s, i);
    } else if st.state == 3 {
        lemma_value_resume(st, h, s, i);
    }
}

/// Where `Request::parse` completes with `n` bytes, the method and the
/// path it sets lie within those bytes; the method is made of token bytes
/// (ASCII) and the path is valid UTF-8, so both can be read as strings.
pub proof fn law_request_slices(req: Request, s: Seq<u8>)
    requires
        s.len() <= usize::MAX,
        request_spec(req, s).1 matches Ok(Status::Complete(_)),
    ensures
        ({
            let (r, res) = request_spec(req, s);
            let n = res->Ok_0->Complete_0 as int;
            &&& r.method.start < r.method.end <= r.path.start < r.path.end <= n <= s.len()
            &&& forall|k: int| r.method.start <= k < r.method.end ==> tchar(#[trigger] s[k]) && s[k] < 0x80
            &&& valid_utf8(s.subrange(r.method.start as int, r.method.end as int))
            &&& valid_utf8(s.subrange(r.path.start as int, r.path.end as int))
        }),
{
    lemma_method_prefix(s, 0, s.len() as int);
    lemma_method_tokens(s, 0);
    let (m, q1) = method_spec(s, 0)->Ok_0->Complete_0;
    lemma_uri_prefix(s, q1, s.len() as int);
    lemma_scan(s, q1, ByteClass::Uri);
    lemma_scan_ge(s, scan(s, q1, ByteClass::Uri) + 1, ByteClass::Space);
    let q2 = end_of(uri_spec(s, q1));
    lemma_version_prefix(s, q2, s.len() as int);
    let q3 = end_of(version_spec(s, q2));
    lemma_newline_prefix(s, q3, s.len() as int);
    crate::utils::lemma_ascii_valid_utf8(s.subrange(m.start as int, m.end as int));
}

/// Where `Response::parse` completes with `n` bytes, the reason it sets
/// lies within those bytes and is ASCII (obs-text leaves it empty), so it
/// can be read as a string.
pub proof fn law_response_reason(res: Response, s: Seq<u8>)
    requires
        s.len() <= usize::MAX,
        response_spec(res, s).1 matches Ok(Status::Complete(_)),
    ensures
        ({
            let (r, out) = response_spec(res, s);
            let n = out->Ok_0->Complete_0 as int;
            &&& r.reason.start <= r.reason.end <= n <= s.len()
            &&& forall|k: int| r.reason.start <= k < r.reason.end ==> #[trigger] s[k] < 0x80
            &&& valid_utf8(s.subrange(r.reason.start as int, r.reason.end as int))
        }),
{
    let n = s.len() as int;
    lemma_empty_lines(s, 0);
    let p1 = end_of(empty_lines_spec(s, 0));
    lemma_version_prefix(s, p1, n);
    let v = version_spec(s, p1);
    let q1 = end_of(v);
    lemma_empty_lines(s, q1);
    let p2 = end_of(empty_lines_spec(s, q1));
    lemma_spaces_bounds(s, p2 + 1);
    let p3 = end_of(spaces_spec(s, p2 + 1));
    lemma_code_prefix(s, p3, n);
    let (code, q3) = code_spec(s, p3)->Ok_0->Complete_0;
    let r2 = Response { version: v->Ok_0->Complete_0.0, code: code, reason: res.reason };
    lemma_status_tail_prefix(r2, s, q3, n);
    let (r, out) = response_spec(res, s);
    if s[q3] == SP {
        lemma_spaces_bounds(s, q3 + 1);
        let p4 = end_of(spaces_spec(s, q3 + 1));
        lemma_scan(s, p4, ByteClass::Field);
        let e = scan(s, p4, ByteClass::Field);
        if !has_obs_text(s, p4, e) {
            assert forall|k: int| p4 <= k < e implies #[trigger] s[k] < 0x80 by {
                if s[k] >= 0x80 {
                    assert(has_obs_text(s, p4, e));
                }
            }
        }
    }
    let w = s.subrange(r.reason.start as int, r.reason.end as int);
    assert forall|k: int| 0 <= k < w.len() implies w[k] < 0x80 by {
        assert(w[k] == s[r.reason.start + k]);
    }
    crate::utils::lemma_ascii_valid_utf8(w);
}

/// A value that starts with a byte other than white space keeps it.
proof fn lemma_trim_keeps(s: Seq<u8>, w: int, q: int)
    requires
        0 <= w < q <= s.len(),
        !crate::headers::trailing_ws(s[w]),
    ensures
        w < trim_end(s, q) <= q,
    decreases q,
{
    if q - 1 > w && crate::headers::trailing_ws(s[q - 1]) {
        lemma_trim_keeps(s, w, q - 1);
    }
}

/// Where a header parse from the start of a line completes with a header
/// line ending at `q`, the name and value it sets lie within the line; the
/// name is made of token bytes (ASCII) and is not empty, and the value is
/// empty or starts at a byte other than white space. Where it completes
/// with the end of the head, the header is left as it was.
pub proof fn law_header_slices(st: State, h: Header, s: Seq<u8>)
    requires
        s.len() <= usize::MAX,
        st.state == 0,
    ensures
        ({
            let (st1, h1, r) = header_spec(st, h, s);
            &&& r matches Ok(Status::Complete(crate::HeaderParsed::Header(q))) ==> {
                &&& st.cursor <= h1.name.start < h1.name.end < q <= s.len()
                &&& forall|k: int| h1.name.start <= k < h1.name.end ==> tchar(#[trigger] s[k]) && s[k] < 0x80
                &&& h1.value.start <= h1.value.end <= q
                &&& h1.value.start < h1.value.end ==> !crate::headers::trailing_ws(s[h1.value.start as int])
            }
            &&& r matches Ok(Status::Complete(crate::HeaderParsed::Eof(_))) ==> h1 == h
        }),
{
    let c = st.cursor as int;
    let (st1, h1, r) = header_spec(st, h, s);
    if c < s.len() && s[c] != CR && s[c] != LF && tchar(s[c]) {
        lemma_scan_ge(s, c + 1, ByteClass::Token);
        lemma_scan(s, c + 1, ByteClass::Token);
        let e = scan(s, c + 1, ByteClass::Token);
        assert forall|k: int| c <= k < e implies tchar(#[trigger] s[k]) && s[k] < 0x80 by {
            if k > c {
                assert(crate::utils::in_class(ByteClass::Token, s[k]));
            }
        }
        if e < s.len() && s[e] == crate::headers::COLON {
            lemma_scan_ge(s, e + 1, ByteClass::Lws);
            lemma_scan(s, e + 1, ByteClass::Lws);
            let w = scan(s, e + 1, ByteClass::Lws);
            if w < s.len() && field_char(s[w]) {
                lemma_scan_ge(s, w + 1, ByteClass::Field);
                lemma_scan(s, w + 1, ByteClass::Field);
                let e2 = scan(s, w + 1, ByteClass::Field);
                if e2 < s.len() {
                    if e2 + 1 < s.len() {
                        lemma_trim_keeps(s, w, e2 + 2);
                    }
                    lemma_trim_keeps(s, w, e2 + 1);
                }
            }
        }
    }
}

/// A header-parse state that a parse of `s` can stand in: one of the four
/// parts of a line, with the accepted start at or before the cursor and the
/// cursor within the buffer.
pub open spec fn header_state_ok(st: State, s: Seq<u8>) -> bool {
    &&& st.state <= 3
    &&& st.start <= st.cursor <= s.len()
}

/// What a header parse leaves: a state it can stand in; completion at the
/// start of a line, with a header line ending at the cursor and accepted
/// up to it, or an empty line from the accepted start to the cursor; and a
/// partial parse stopped at the end of the buffer.
pub open spec fn header_outcome_ok(out: HeaderOutcome, s: Seq<u8>) -> bool {
    let (st1, _, r) = out;
    &&& header_state_ok(st1, s)
    &&& (r matches Ok(Status::Complete(_))) ==> st1.state == 0
    &&& r matches Ok(Status::Complete(crate::HeaderParsed::Header(n))) ==> (n == st1.cursor
        && n == st1.start)
    &&& r matches Ok(Status::Complete(crate::HeaderParsed::Eof(n))) ==> n == st1.cursor
        - st1.start
    &&& (r matches Ok(Status::Partial)) ==> st1.cursor == s.len()
}

proof fn lemma_value_state(st: State, h: Header, s: Seq<u8>)
    requires
        s.len() <= usize::MAX,
        header_state_ok(st, s),
        st.state == 3,
    ensures
        header_outcome_ok(value_spec(st, h, s), s),
{
    lemma_scan(s, st.cursor as int, ByteClass::Field);
    let e = scan(s, st.cursor as int, ByteClass::Field);
    if e + 2 <= s.len() {
        crate::headers::lemma_trim_end_le(s, e + 2);
    }
    if e + 1 <= s.len() {
        crate::headers::lemma_trim_end_le(s, e + 1);
    }
}

proof fn lemma_gap_state(st: State, h: Header, s: Seq<u8>)
    requires
        s.len() <= usize::MAX,
        header_state_ok(st, s),
        st.state == 2,
    ensures
        header_outcome_ok(gap_spec(st, h, s), s),
{
    lemma_scan(s, st.cursor as int, ByteClass::Lws);
    let w = scan(s, st.cursor as int, ByteClass::Lws);
    if w < s.len() {
        lemma_value_state(
            State { start: st.start, cursor: (w + 1) as usize, state: 3 },
            Header { name: h.name, value: SlicePos { start: w as usize, end: h.value.end } },
            s,
        );
    }
}

proof fn lemma_name_state(st: State, h: Header, s: Seq<u8>)
    requires
        s.len() <= usize::MAX,
        header_state_ok(st, s),
        st.state == 1,
    ensures
        header_outcome_ok(name_spec(st, h, s), s),
{
    lemma_scan(s, st.cursor as int, ByteClass::Token);
    let e = scan(s, st.cursor as int, ByteClass::Token);
    if e < s.len() {
        lemma_gap_state(
            State { start: st.start, cursor: (e + 1) as usize, state: 2 },
            Header { name: SlicePos { start: h.name.start, end: e as usize }, value: h.value },
            s,
        );
    }
}

/// The header parser keeps its state well formed: from a state it can
/// stand in, `Header::parse_with_state` leaves one too (state at most 3,
/// start at or before the cursor, cursor within the buffer); it completes
/// only in state 0, a header line at the cursor with everything before it
/// accepted, an empty line from the accepted start to the cursor; and where
/// it is partial it has read to the end of the buffer.
pub proof fn law_header_state(st: State, h: Header, s: Seq<u8>)
    requires
        s.len() <= usize::MAX,
        header_state_ok(st, s),
    ensures
        header_outcome_ok(header_spec(st, h, s), s),
{
    if st.state == 0 {
        let c = st.cursor as int;
        if c < s.len() && s[c] != CR && s[c] != LF && tchar(s[c]) {
            lemma_name_state(
                State { start: st.start, cursor: (c + 1) as usize, state: 1 },
                Header { name: SlicePos { start: c as usize, end: h.name.end }, value: h.value },
                s,
            );
        }
    } else if st.state == 1 {
        lemma_name_state(st, h, s);
    } else if st.state == 2 {
        lemma_gap_state(st, h, s);
    } else {
        lemma_value_state(st, h, s);
    }
}

/// What a partial header parse still waits for: a colon and a line break
/// where it stopped in a name, a line break elsewhere.
pub open spec fn header_completion(st1: State) -> Seq<u8> {
    if st1.state == 1 {
        seq![crate::headers::COLON, LF]
    } else {
        seq![LF]
    }
}

/// No LF in `s` from `c` on.
pub open spec fn no_lf_from(s: Seq<u8>, c: int) -> bool {
    forall|k: int| c <= k < s.len() ==> #[trigger] s[k] != LF
}

proof fn lemma_value_completes(st: State, h: Header, s: Seq<u8>)
    requires
        s.len() + 2 <= usize::MAX,
        st.state == 3,
        st.cursor <= s.len(),
        value_spec(st, h, s).2 matches Ok(Status::Partial),
    ensures
        value_spec(st, h, s).0.state == 3,
        no_lf_from(s, st.cursor as int),
        value_spec(st, h, s + header_completion(value_spec(st, h, s).0)).2 matches Ok(
            Status::Complete(_),
        ),
{
    let c = st.cursor as int;
    let x = seq![LF];
    let t = s + x;
    lemma_scan(s, c, ByteClass::Field);
    lemma_scan_extend(s, x, c, ByteClass::Field);
    let e = scan(s, c, ByteClass::Field);
    assert forall|k: int| c <= k < s.len() implies #[trigger] s[k] != LF by {
        if k < e {
            assert(crate::utils::in_class(ByteClass::Field, s[k]));
        }
    }
    assert(t[s.len() as int] == LF);
    if e < s.len() {
        assert(t[e] == s[e]);
    }
}

proof fn lemma_gap_completes(st: State, h: Header, s: Seq<u8>)
    requires
        s.len() + 2 <= usize::MAX,
        st.state == 2,
        st.cursor <= s.len(),
        gap_spec(st, h, s).2 matches Ok(Status::Partial),
    ensures
        gap_spec(st, h, s).0.state >= 2,
        no_lf_from(s, st.cursor as int),
        gap_spec(st, h, s + header_completion(gap_spec(st, h, s).0)).2 matches Ok(
            Status::Complete(_),
        ),
{
    let c = st.cursor as int;
    let x = seq![LF];
    let t = s + x;
    lemma_scan(s, c, ByteClass::Lws);
    lemma_scan_extend(s, x, c, ByteClass::Lws);
    let w = scan(s, c, ByteClass::Lws);
    assert(t[s.len() as int] == LF);
    if w < s.len() {
        assert(t[w] == s[w]);
        if field_char(s[w]) {
            let st3 = State { start: st.start, cursor: (w + 1) as usize, state: 3 };
            let h3 = Header { name: h.name, value: SlicePos { start: w as usize, end: h.value.end } };
            lemma_value_completes(st3, h3, s);
        }
    }
    assert forall|k: int| c <= k < s.len() implies #[trigger] s[k] != LF by {
        if k < w {
            assert(crate::utils::in_class(ByteClass::Lws, s[k]));
        }
    }
}

proof fn lemma_name_completes(st: State, h: Header, s: Seq<u8>)
    requires
        s.len() + 2 <= usize::MAX,
        st.state == 1,
        st.cursor <= s.len(),
        name_spec(st, h, s).2 matches Ok(Status::Partial),
    ensures
        no_lf_from(s, st.cursor as int),
        name_spec(st, h, s + header_completion(name_spec(st, h, s).0)).2 matches Ok(
            Status::Complete(_),
        ),
{
    let c = st.cursor as int;
    lemma_scan(s, c, ByteClass::Token);
    let e = scan(s, c, ByteClass::Token);
    let n = s.len() as int;
    assert forall|k: int| c <= k < e implies #[trigger] s[k] != LF by {
        assert(crate::utils::in_class(ByteClass::Token, s[k]));
    }
    if e >= n {
        let x = seq![crate::headers::COLON, LF];
        let t = s + x;
        lemma_scan_extend(s, x, c, ByteClass::Token);
        assert(t[n] == crate::headers::COLON);
        assert(t[n + 1] == LF);
        lemma_scan_unique(t, n + 1, ByteClass::Lws, n + 1);
    } else {
        let x = seq![LF];
        let st2 = State { start: st.start, cursor: (e + 1) as usize, state: 2 };
        let h2 = Header { name: SlicePos { start: h.name.start, end: e as usize }, value: h.value };
        lemma_gap_completes(st2, h2, s);
        lemma_scan_extend(s, x, c, ByteClass::Token);
        assert((s + x)[e] == s[e]);
    }
}

/// A partial header parse has met no LF and can be completed: from a state
/// one of the four parts of a line with its cursor in the buffer, where
/// `Header::parse_with_state` is partial, no byte from the cursor on is a
/// LF, and the same call on the buffer with a line break added (with a
/// colon before it where the parse stopped in a name) completes.
pub proof fn law_header_partial_completes(st: State, h: Header, s: Seq<u8>)
    requires
        s.len() + 2 <= usize::MAX,
        st.state <= 3,
        st.cursor <= s.len(),
        header_spec(st, h, s).2 matches Ok(Status::Partial),
    ensures
        no_lf_from(s, st.cursor as int),
        header_spec(st, h, s + header_completion(header_spec(st, h, s).0)).2 matches Ok(
            Status::Complete(_),
        ),
{
    if st.state == 0 {
        let c = st.cursor as int;
        let n = s.len() as int;
        if c < n && s[c] != CR && s[c] != LF && tchar(s[c]) {
            let st1 = State { start: st.start, cursor: (c + 1) as usize, state: 1 };
            let h1 = Header { name: SlicePos { start: c as usize, end: h.name.end }, value: h.value };
            lemma_name_completes(st1, h1, s);
            let x = header_completion(header_spec(st, h, s).0);
            assert((s + x)[c] == s[c]);
        } else {
            let x = seq![LF];
            assert((s + x)[n] == LF);
            if c < n {
                assert((s + x)[c] == s[c]);
            }
        }
    } else if st.state == 1 {
        lemma_name_completes(st, h, s);
    } else if st.state == 2 {
        lemma_gap_completes(st, h, s);
    } else {
        lemma_value_completes(st, h, s);
    }
}

} // verus!
