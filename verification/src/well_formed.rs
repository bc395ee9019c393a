//! What the parsers answer on whole lines, stated over the byte classes of
//! RFC 7230 written out here byte by byte: a well-formed line of each kind
//! is read whole and its fields come out as the line writes them, and a
//! line that breaks the grammar at a given byte is refused with the error
//! for that part of the line.

use vstd::prelude::*;

use crate::chunk::chunk_size_spec;
use crate::headers::{gap_spec, header_spec, trailing_ws, trim_end, Header, HeaderParsed};
use crate::request::{get_sp, method_token_spec, post_sp, request_spec, starts_with, uri_spec, Request};
use crate::response::{code_spec, has_obs_text, response_spec, status_tail_spec, Response};
use crate::version::version_spec;
use crate::utils::{empty_lines_spec, in_class, lemma_scan_skip, lemma_scan_unique, scan, spaces_spec, ByteClass};
use crate::{SlicePos, State, Status};

verus! {

/// A decimal digit, `0` to `9`.
pub open spec fn is_ascii_digit(b: u8) -> bool {
    0x30 <= b && b <= 0x39
}

/// `tchar` of RFC 7230: ``! # $ % & ' * + - . ^ _ ` | ~``, DIGIT and ALPHA.
pub open spec fn is_rfc_tchar(b: u8) -> bool {
    ||| b == 0x21 || b == 0x23 || b == 0x24 || b == 0x25 || b == 0x26 || b == 0x27
    ||| b == 0x2a || b == 0x2b || b == 0x2d || b == 0x2e
    ||| b == 0x5e || b == 0x5f || b == 0x60 || b == 0x7c || b == 0x7e
    ||| 0x30 <= b && b <= 0x39
    ||| 0x41 <= b && b <= 0x5a
    ||| 0x61 <= b && b <= 0x7a
}

/// A byte that a request target may hold: VCHAR, or any byte from 0x80 on.
pub open spec fn is_target_byte(b: u8) -> bool {
    ||| 0x21 <= b && b <= 0x7e
    ||| 0x80 <= b
}

/// A byte of a header value or a reason phrase: HTAB, SP, VCHAR or
/// obs-text.
pub open spec fn is_text_byte(b: u8) -> bool {
    ||| b == 0x09
    ||| 0x20 <= b && b <= 0x7e
    ||| 0x80 <= b
}

/// `HTTP/1.0` (`v == 0`) or `HTTP/1.1` (`v == 1`).
pub open spec fn http1_version(v: u8) -> Seq<u8> {
    seq![0x48u8, 0x54, 0x54, 0x50, 0x2f, 0x31, 0x2e, (0x30 + v) as u8]
}

/// CR LF.
pub open spec fn crlf() -> Seq<u8> {
    seq![0x0du8, 0x0a]
}

/// A line end: CR LF, or a bare LF.
pub open spec fn is_line_end(eol: Seq<u8>) -> bool {
    eol == crlf() || eol == seq![0x0au8]
}

/// Empty lines: CR LF or a bare LF, any number of them.
pub open spec fn is_empty_lines(lead: Seq<u8>) -> bool
    decreases lead.len(),
{
    if lead.len() == 0 {
        true
    } else if lead[0] == 0x0a {
        is_empty_lines(lead.subrange(1, lead.len() as int))
    } else if lead.len() >= 2 && lead[0] == 0x0d && lead[1] == 0x0a {
        is_empty_lines(lead.subrange(2, lead.len() as int))
    } else {
        false
    }
}

/// A status line with no reason phrase after empty lines: the version,
/// one space, three digits, the line end.
pub open spec fn bare_status_line(lead: Seq<u8>, v: u8, d0: u8, d1: u8, d2: u8, eol: Seq<u8>) -> Seq<u8> {
    lead + http1_version(v) + seq![0x20u8, d0, d1, d2] + eol
}

/// A status line with a reason phrase after empty lines: the version, one
/// space, three digits, one space, the phrase, the line end.
pub open spec fn status_line(
    lead: Seq<u8>,
    v: u8,
    d0: u8,
    d1: u8,
    d2: u8,
    reason: Seq<u8>,
    eol: Seq<u8>,
) -> Seq<u8> {
    lead + http1_version(v) + seq![0x20u8, d0, d1, d2, 0x20] + reason + eol
}

/// Empty lines at `p` are skipped: the skipping goes on after them as it
/// would from there.
proof fn lemma_skip_lead(s: Seq<u8>, p: int, lead: Seq<u8>)
    requires
        is_empty_lines(lead),
        0 <= p,
        p + lead.len() <= s.len(),
        s.subrange(p, p + lead.len()) == lead,
    ensures
        empty_lines_spec(s, p) == empty_lines_spec(s, p + lead.len()),
    decreases lead.len(),
{
    if lead.len() > 0 {
        assert(s[p] == lead[0]);
        if lead[0] == 0x0a {
            let rest = lead.subrange(1, lead.len() as int);
            assert(s.subrange(p + 1, p + lead.len()) =~= rest);
            lemma_skip_lead(s, p + 1, rest);
        } else {
            let rest = lead.subrange(2, lead.len() as int);
            assert(s[p + 1] == lead[1]);
            assert(s.subrange(p + 2, p + lead.len()) =~= rest);
            lemma_skip_lead(s, p + 2, rest);
        }
    }
}

/// The line end at `e` of `s`, which ends there.
proof fn lemma_line_end_at(s: Seq<u8>, e: int, eol: Seq<u8>)
    requires
        is_line_end(eol),
        0 <= e,
        s.len() == e + eol.len(),
        s.subrange(e, s.len() as int) == eol,
    ensures
        s[e] == 0x0d ==> eol == crlf() && s[e + 1] == 0x0a,
        s[e] == 0x0d || s[e] == 0x0a,
        s[e] == 0x0a ==> eol.len() == 1,
{
    assert(s[e] == eol[0]);
    if eol == crlf() {
        assert(s[e + 1] == eol[1]);
    }
}

/// The version written at `p` reads as its minor number.
proof fn lemma_version_at(s: Seq<u8>, p: int, v: u8)
    requires
        v <= 1,
        0 <= p,
        p + 8 <= s.len(),
        s.subrange(p, p + 8) == http1_version(v),
    ensures
        version_spec(s, p) == Ok::<Status<(u8, int)>, crate::Error>(Status::Complete((v, p + 8))),
{
    let w = s.subrange(p, p + 8);
    assert(crate::version::version_bytes(v) =~= http1_version(v));
    if v == 1 {
        assert(w[7] != crate::version::version_bytes(0)[7]);
    }
}

/// The status code that three decimal digits write.
pub open spec fn decimal3(d0: u8, d1: u8, d2: u8) -> int {
    100 * (d0 - 0x30) + 10 * (d1 - 0x30) + (d2 - 0x30)
}

/// Empty lines, the version, one space and three digits at the start of
/// `s`: what follows is read as the rest of the status line.
proof fn lemma_status_start(res: Response, s: Seq<u8>, lead: Seq<u8>, v: u8, d0: u8, d1: u8, d2: u8)
    requires
        is_empty_lines(lead),
        v <= 1,
        is_ascii_digit(d0),
        is_ascii_digit(d1),
        is_ascii_digit(d2),
        lead.len() + 12 < s.len(),
        s.subrange(0, lead.len() as int) == lead,
        s.subrange(lead.len() as int, lead.len() + 8int) == http1_version(v),
        s[lead.len() + 8int] == 0x20,
        s[lead.len() + 9int] == d0,
        s[lead.len() + 10int] == d1,
        s[lead.len() + 11int] == d2,
    ensures
        response_spec(res, s) == status_tail_spec(
            Response { version: v, code: decimal3(d0, d1, d2) as u16, reason: res.reason },
            s,
            lead.len() + 12int,
        ),
{
    let o = lead.len() as int;
    lemma_skip_lead(s, 0, lead);
    assert(s[o] == http1_version(v)[0]);
    lemma_version_at(s, o, v);
    lemma_scan_unique(s, o + 9, ByteClass::Space, o + 9);
    assert(empty_lines_spec(s, 0) == Ok::<Status<((), int)>, crate::Error>(Status::Complete(((), o))));
    assert(empty_lines_spec(s, o + 8) == Ok::<Status<((), int)>, crate::Error>(Status::Complete(((), o + 8))));
    assert(spaces_spec(s, o + 9) == Ok::<Status<((), int)>, crate::Error>(Status::Complete(((), o + 9))));
    assert(code_spec(s, o + 9) == Ok::<Status<(u16, int)>, crate::Error>(
        Status::Complete((decimal3(d0, d1, d2) as u16, o + 12)),
    ));
}

/// On a status line without a reason phrase, after any empty lines, the
/// response takes the version, the code that the three digits write in
/// decimal and an empty reason, and the parse completes with the whole
/// buffer.
pub proof fn law_bare_status_line(res: Response, lead: Seq<u8>, v: u8, d0: u8, d1: u8, d2: u8, eol: Seq<u8>)
    requires
        is_empty_lines(lead),
        v <= 1,
        is_ascii_digit(d0),
        is_ascii_digit(d1),
        is_ascii_digit(d2),
        is_line_end(eol),
    ensures
        response_spec(res, bare_status_line(lead, v, d0, d1, d2, eol)) == (
            Response { version: v, code: decimal3(d0, d1, d2) as u16, reason: SlicePos { start: 0, end: 0 } },
            Ok::<Status<usize>, crate::Error>(Status::Complete((lead.len() + 12 + eol.len()) as usize)),
        ),
        0 <= decimal3(d0, d1, d2) <= 999,
{
    let s = bare_status_line(lead, v, d0, d1, d2, eol);
    let o = lead.len() as int;
    assert(s.subrange(0, o) =~= lead);
    assert(s.subrange(o, o + 8) =~= http1_version(v));
    assert(s[o + 8] == 0x20 && s[o + 9] == d0 && s[o + 10] == d1 && s[o + 11] == d2);
    assert(s.subrange(o + 12, s.len() as int) =~= eol);
    lemma_line_end_at(s, o + 12, eol);
    lemma_status_start(res, s, lead, v, d0, d1, d2);
}

/// Some byte of the phrase is obs-text (0x80 and above).
pub open spec fn has_non_ascii(reason: Seq<u8>) -> bool {
    exists|k: int| 0 <= k < reason.len() && 0x80 <= #[trigger] reason[k]
}

/// On a status line with a reason phrase of text bytes that starts with no
/// space, after any empty lines, the response takes the version, the code
/// that the three digits write in decimal and the position of the phrase
/// (left empty where the phrase holds obs-text), and the parse completes
/// with the whole buffer.
pub proof fn law_status_line(
    res: Response,
    lead: Seq<u8>,
    v: u8,
    d0: u8,
    d1: u8,
    d2: u8,
    reason: Seq<u8>,
    eol: Seq<u8>,
)
    requires
        is_empty_lines(lead),
        v <= 1,
        is_ascii_digit(d0),
        is_ascii_digit(d1),
        is_ascii_digit(d2),
        reason.len() > 0,
        reason[0] != 0x20,
        forall|k: int| 0 <= k < reason.len() ==> is_text_byte(#[trigger] reason[k]),
        is_line_end(eol),
        status_line(lead, v, d0, d1, d2, reason, eol).len() <= usize::MAX,
    ensures
        response_spec(res, status_line(lead, v, d0, d1, d2, reason, eol)) == (
            Response {
                version: v,
                code: decimal3(d0, d1, d2) as u16,
                reason: if has_non_ascii(reason) {
                    SlicePos { start: 0, end: 0 }
                } else {
                    SlicePos { start: (lead.len() + 13) as usize, end: (lead.len() + 13 + reason.len()) as usize }
                },
            },
            Ok::<Status<usize>, crate::Error>(
                Status::Complete((lead.len() + 13 + reason.len() + eol.len()) as usize),
            ),
        ),
{
    let s = status_line(lead, v, d0, d1, d2, reason, eol);
    let o = lead.len() as int;
    let r = o + 13;
    let e: int = r + reason.len() as int;
    assert(s.subrange(0, o) =~= lead);
    assert(s.subrange(o, o + 8) =~= http1_version(v));
    assert(s[o + 8] == 0x20 && s[o + 9] == d0 && s[o + 10] == d1 && s[o + 11] == d2 && s[o + 12] == 0x20);
    assert(s.subrange(e, s.len() as int) =~= eol);
    lemma_line_end_at(s, e, eol);
    lemma_status_start(res, s, lead, v, d0, d1, d2);
    assert forall|k: int| r <= k < e implies s[k] == reason[k - r] by {}
    assert(s[r] == reason[0]);
    lemma_scan_unique(s, r, ByteClass::Space, r);
    assert forall|k: int| r <= k < e implies #[trigger] in_class(ByteClass::Field, s[k]) by {
        assert(s[k] == reason[k - r]);
        assert(is_text_byte(reason[k - r]));
    }
    lemma_scan_unique(s, r, ByteClass::Field, e);
    assert(has_obs_text(s, r, e) == has_non_ascii(reason)) by {
        if has_non_ascii(reason) {
            let k = choose|k: int| 0 <= k < reason.len() && 0x80 <= #[trigger] reason[k];
            assert(s[r + k] == reason[k]);
        }
        if has_obs_text(s, r, e) {
            let j = choose|j: int| r <= j < e && #[trigger] s[j] >= 0x80;
            assert(s[j] == reason[j - r]);
        }
    }
    assert(spaces_spec(s, r) == Ok::<Status<((), int)>, crate::Error>(Status::Complete(((), r))));
}

/// A hexadecimal digit: `0` to `9`, `A` to `F`, `a` to `f`.
pub open spec fn is_hex_byte(b: u8) -> bool {
    ||| 0x30 <= b && b <= 0x39
    ||| 0x41 <= b && b <= 0x46
    ||| 0x61 <= b && b <= 0x66
}

/// The value of a hexadecimal digit.
pub open spec fn nibble(b: u8) -> int {
    if 0x30 <= b && b <= 0x39 {
        b - 0x30
    } else if 0x41 <= b && b <= 0x46 {
        b - 0x41 + 10
    } else {
        b - 0x61 + 10
    }
}

/// The number that a string of hexadecimal digits writes, most significant
/// digit first.
pub open spec fn base16(d: Seq<u8>) -> int
    decreases d.len(),
{
    if d.len() == 0 {
        0
    } else {
        16 * base16(d.drop_last()) + nibble(d.last())
    }
}

pub open spec fn all_hex(d: Seq<u8>) -> bool {
    forall|k: int| 0 <= k < d.len() ==> is_hex_byte(#[trigger] d[k])
}

proof fn lemma_base16_agrees(d: Seq<u8>)
    requires
        all_hex(d),
    ensures
        crate::chunk::hex_number(d) == base16(d),
        0 <= base16(d) < crate::chunk::pow16(d.len()),
    decreases d.len(),
{
    if d.len() > 0 {
        let e = d.drop_last();
        assert(is_hex_byte(d[d.len() - 1]));
        assert forall|k: int| 0 <= k < e.len() implies is_hex_byte(#[trigger] e[k]) by {
            assert(e[k] == d[k]);
        }
        lemma_base16_agrees(e);
    }
}

proof fn lemma_pow16_at_most_16(n: nat)
    requires
        n <= 16,
    ensures
        crate::chunk::pow16(n) <= 0x1_0000_0000_0000_0000,
    decreases 16 - n,
{
    if n < 16 {
        lemma_pow16_at_most_16(n + 1);
        assert(crate::chunk::pow16(n + 1) == 16 * crate::chunk::pow16(n));
    } else {
        reveal_with_fuel(crate::chunk::pow16, 17);
    }
}

/// SP or HTAB.
pub open spec fn is_blank(b: u8) -> bool {
    b == 0x20 || b == 0x09
}

pub open spec fn all_blank(w: Seq<u8>) -> bool {
    forall|k: int| 0 <= k < w.len() ==> is_blank(#[trigger] w[k])
}

/// A chunk-size line: the digits, white space, CR LF.
pub open spec fn chunk_line(d: Seq<u8>, ws: Seq<u8>) -> Seq<u8> {
    d + ws + crlf()
}

/// A chunk-size line with an extension: the digits, white space, `;`, the
/// extension, CR LF.
pub open spec fn chunk_line_ext(d: Seq<u8>, ws: Seq<u8>, ext: Seq<u8>) -> Seq<u8> {
    d + ws + seq![0x3bu8] + ext + crlf()
}

/// The digits at the start of `s` and the white space after them run up to
/// `d.len() + ws.len()`.
proof fn lemma_size_digits(s: Seq<u8>, d: Seq<u8>, ws: Seq<u8>)
    requires
        d.len() <= 16,
        all_hex(d),
        all_blank(ws),
        d.len() + ws.len() < s.len(),
        s.subrange(0, d.len() as int) == d,
        s.subrange(d.len() as int, d.len() + ws.len() as int) == ws,
        !is_blank(s[d.len() + ws.len() as int]),
        !is_hex_byte(s[d.len() + ws.len() as int]),
    ensures
        scan(s, 0, ByteClass::Hex) == d.len(),
        scan(s, d.len() as int, ByteClass::Lws) == d.len() + ws.len(),
        s.take(d.len() as int) == d,
        crate::chunk::hex_number(d) == base16(d),
        0 <= base16(d) < 0x1_0000_0000_0000_0000,
{
    let n = d.len() as int;
    let w = n + ws.len();
    lemma_base16_agrees(d);
    lemma_pow16_at_most_16(d.len());
    assert forall|k: int| 0 <= k < n implies #[trigger] in_class(ByteClass::Hex, s[k]) by {
        assert(s[k] == s.subrange(0, n)[k]);
        assert(is_hex_byte(d[k]));
    }
    assert forall|k: int| n <= k < w implies #[trigger] in_class(ByteClass::Lws, s[k]) by {
        assert(s[k] == s.subrange(n, w)[k - n]);
        assert(is_blank(ws[k - n]));
    }
    if ws.len() > 0 {
        assert(s[n] == ws[0]);
        assert(is_blank(ws[0]));
    }
    lemma_scan_unique(s, 0, ByteClass::Hex, n);
    lemma_scan_unique(s, n, ByteClass::Lws, w);
    assert(s.take(n) =~= d);
}

/// A chunk-size line of at most sixteen hexadecimal digits, white space
/// and CR LF is read whole, and the size is the number the digits write in
/// base 16 (0 for none), which a `u64` holds.
pub proof fn law_chunk_size_line(d: Seq<u8>, ws: Seq<u8>)
    requires
        d.len() <= 16,
        all_hex(d),
        all_blank(ws),
    ensures
        0 <= base16(d) < 0x1_0000_0000_0000_0000,
        chunk_size_spec(chunk_line(d, ws)) == Ok::<Status<(usize, u64)>, crate::InvalidChunkSize>(
            Status::Complete(((d.len() + ws.len() + 2) as usize, base16(d) as u64)),
        ),
{
    let s = chunk_line(d, ws);
    let w: int = d.len() + ws.len() as int;
    assert(s.subrange(0, d.len() as int) =~= d);
    assert(s.subrange(d.len() as int, w) =~= ws);
    assert(s[w] == 0x0d && s[w + 1] == 0x0a);
    lemma_size_digits(s, d, ws);
}

/// A chunk extension changes neither the size nor where the line ends: the
/// line is read whole up to its CR LF, whatever bytes but CR the extension
/// holds.
pub proof fn law_chunk_size_extension(d: Seq<u8>, ws: Seq<u8>, ext: Seq<u8>)
    requires
        d.len() <= 16,
        all_hex(d),
        all_blank(ws),
        forall|k: int| 0 <= k < ext.len() ==> #[trigger] ext[k] != 0x0d,
    ensures
        chunk_size_spec(chunk_line_ext(d, ws, ext)) == Ok::<Status<(usize, u64)>, crate::InvalidChunkSize>(
            Status::Complete(((d.len() + ws.len() + ext.len() + 3) as usize, base16(d) as u64)),
        ),
{
    let s = chunk_line_ext(d, ws, ext);
    let w: int = d.len() + ws.len() as int;
    let r: int = w + 1 + ext.len() as int;
    assert(s.subrange(0, d.len() as int) =~= d);
    assert(s.subrange(d.len() as int, w) =~= ws);
    assert(s[w] == 0x3b);
    assert(s[r] == 0x0d && s[r + 1] == 0x0a);
    lemma_size_digits(s, d, ws);
    assert forall|k: int| w + 1 <= k < r implies #[trigger] in_class(ByteClass::NotCr, s[k]) by {
        assert(s[k] == ext[k - w - 1]);
    }
    lemma_scan_unique(s, w + 1, ByteClass::NotCr, r);
}

/// Appending a hexadecimal digit to the size of a chunk-size line makes
/// the line one byte longer and the size sixteen times the old one plus
/// the digit's value.
pub proof fn law_chunk_size_digit_appended(d: Seq<u8>, c: u8)
    requires
        d.len() <= 15,
        all_hex(d),
        is_hex_byte(c),
    ensures
        match (chunk_size_spec(d + crlf()), chunk_size_spec(d.push(c) + crlf())) {
            (Ok(Status::Complete((n1, a))), Ok(Status::Complete((n2, b)))) => n2 == n1 + 1 && b == 16 * a
                + nibble(c),
            _ => false,
        },
{
    let e = d.push(c);
    let none = Seq::<u8>::empty();
    assert(e.drop_last() =~= d);
    assert forall|k: int| 0 <= k < e.len() implies is_hex_byte(#[trigger] e[k]) by {
        if k < d.len() {
            assert(e[k] == d[k]);
        }
    }
    assert(chunk_line(d, none) =~= d + crlf());
    assert(chunk_line(e, none) =~= e + crlf());
    law_chunk_size_line(d, none);
    law_chunk_size_line(e, none);
}

pub open spec fn all_tchar(m: Seq<u8>) -> bool {
    forall|k: int| 0 <= k < m.len() ==> is_rfc_tchar(#[trigger] m[k])
}

pub open spec fn all_target(t: Seq<u8>) -> bool {
    forall|k: int| 0 <= k < t.len() ==> is_target_byte(#[trigger] t[k])
}

/// A request target `t`, one space, and the rest of the line.
pub open spec fn target_then(t: Seq<u8>, rest: Seq<u8>) -> Seq<u8> {
    t + seq![0x20u8] + rest
}

/// The target at `p` of `s`: a run of target bytes that is valid UTF-8,
/// ended by a space that no further space follows.
proof fn lemma_target_at(s: Seq<u8>, p: int, t: Seq<u8>)
    requires
        0 <= p,
        p + t.len() + 1 < s.len(),
        s.subrange(p, p + t.len()) == t,
        t.len() > 0,
        all_target(t),
        vstd::utf8::valid_utf8(t),
        s[p + t.len()] == 0x20,
        s[p + t.len() + 1] != 0x20,
    ensures
        uri_spec(s, p) == Ok::<Status<(SlicePos, int)>, crate::Error>(
            Status::Complete((SlicePos { start: p as usize, end: (p + t.len()) as usize }, p + t.len() + 1)),
        ),
{
    let e = p + t.len();
    assert forall|k: int| p <= k < e implies #[trigger] in_class(ByteClass::Uri, s[k]) by {
        assert(s[k] == s.subrange(p, e)[k - p]);
        assert(is_target_byte(t[k - p]));
    }
    lemma_scan_unique(s, p, ByteClass::Uri, e);
    lemma_scan_unique(s, e + 1, ByteClass::Space, e + 1);
}

/// A nonempty request target of target bytes that is valid UTF-8, followed
/// by a space and anything but a further space, is read whole: its
/// position is the target, and the reading stops past the space.
pub proof fn law_request_target(t: Seq<u8>, rest: Seq<u8>)
    requires
        t.len() > 0,
        all_target(t),
        vstd::utf8::valid_utf8(t),
        rest.len() > 0,
        rest[0] != 0x20,
    ensures
        uri_spec(target_then(t, rest), 0) == Ok::<Status<(SlicePos, int)>, crate::Error>(
            Status::Complete((SlicePos { start: 0, end: t.len() as usize }, t.len() + 1int)),
        ),
        target_then(t, rest).subrange(0, t.len() as int) == t,
{
    let s = target_then(t, rest);
    assert(s.subrange(0, t.len() as int) =~= t);
    assert(s[t.len() as int] == 0x20);
    assert(s[t.len() + 1int] == rest[0]);
    lemma_target_at(s, 0, t);
}

/// A request line after empty lines: the method, one space, the target,
/// one space, the version, the line end.
pub open spec fn request_line(lead: Seq<u8>, m: Seq<u8>, t: Seq<u8>, v: u8, eol: Seq<u8>) -> Seq<u8> {
    lead + m + seq![0x20u8] + t + seq![0x20u8] + http1_version(v) + eol
}

/// A method of token bytes at `o`, followed by one space and a byte that
/// is no space, is read whole, whether or not it is one of the methods read
/// by a shortcut.
proof fn lemma_method_at(s: Seq<u8>, o: int, m: Seq<u8>)
    requires
        0 <= o,
        m.len() > 0,
        all_tchar(m),
        o + m.len() + 1 < s.len(),
        s.subrange(o, o + m.len()) == m,
        s[o + m.len()] == 0x20,
        s[o + m.len() + 1] != 0x20,
    ensures
        method_token_spec(s, o) == Ok::<Status<(SlicePos, int)>, crate::Error>(
            Status::Complete((SlicePos { start: o as usize, end: (o + m.len()) as usize }, o + m.len() + 1)),
        ),
{
    let a = o + m.len();
    assert forall|k: int| o <= k < a implies s[k] == m[k - o] && is_rfc_tchar(s[k]) by {
        assert(s[k] == s.subrange(o, a)[k - o]);
    }
    if starts_with(s, o, get_sp()) {
        let w = s.subrange(o, o + 4);
        assert(w[3] == 0x20);
        if a > o + 3 {
            assert(is_rfc_tchar(s[o + 3]));
        } else if a < o + 3 {
            assert(s[a] == w[a - o]);
        }
        assert(a == o + 3);
        lemma_scan_unique(s, o + 4, ByteClass::Space, o + 4);
    } else if starts_with(s, o, post_sp()) {
        let w = s.subrange(o, o + 5);
        assert(w[4] == 0x20);
        if a > o + 4 {
            assert(is_rfc_tchar(s[o + 4]));
        } else if a < o + 4 {
            assert(s[a] == w[a - o]);
        }
        assert(a == o + 4);
        lemma_scan_unique(s, o + 5, ByteClass::Space, o + 5);
    } else {
        assert forall|k: int| o <= k < a implies #[trigger] in_class(ByteClass::Token, s[k]) by {
            assert(is_rfc_tchar(s[k]));
        }
        lemma_scan_unique(s, o, ByteClass::Token, a);
    }
}

/// A request line of any token method, a nonempty target of target bytes
/// that is valid UTF-8, and `HTTP/1.0` or `HTTP/1.1`, after any empty
/// lines, is read whole: the method and the path are the positions of the
/// method and the target, and the version is the minor number.
pub proof fn law_request_line(req: Request, lead: Seq<u8>, m: Seq<u8>, t: Seq<u8>, v: u8, eol: Seq<u8>)
    requires
        is_empty_lines(lead),
        m.len() > 0,
        all_tchar(m),
        t.len() > 0,
        all_target(t),
        vstd::utf8::valid_utf8(t),
        v <= 1,
        is_line_end(eol),
        request_line(lead, m, t, v, eol).len() <= usize::MAX,
    ensures
        ({
            let o = lead.len();
            request_spec(req, request_line(lead, m, t, v, eol)) == (
                Request {
                    method: SlicePos { start: o as usize, end: (o + m.len()) as usize },
                    path: SlicePos { start: (o + m.len() + 1) as usize, end: (o + m.len() + 1 + t.len()) as usize },
                    version: v,
                },
                Ok::<Status<usize>, crate::Error>(
                    Status::Complete((o + m.len() + t.len() + 10 + eol.len()) as usize),
                ),
            )
        }),
{
    let s = request_line(lead, m, t, v, eol);
    let o = lead.len() as int;
    let a = o + m.len();
    let p = a + 1;
    let e = p + t.len();
    assert(s.subrange(0, o) =~= lead);
    assert(s.subrange(e + 9, s.len() as int) =~= eol);
    lemma_line_end_at(s, e + 9, eol);
    assert(s.subrange(o, a) =~= m);
    assert(s[a] == 0x20);
    assert(s.subrange(p, e) =~= t);
    assert(s[e] == 0x20);
    assert(s.subrange(e + 1, e + 9) =~= http1_version(v));
    assert(s[e + 1] == 0x48);
    assert(s[p] == t[0]);
    assert(is_target_byte(t[0]));
    assert(s[o] == m[0]);
    assert(is_rfc_tchar(m[0]));
    lemma_skip_lead(s, 0, lead);
    assert(empty_lines_spec(s, 0) == Ok::<Status<((), int)>, crate::Error>(Status::Complete(((), o))));
    lemma_method_at(s, o, m);
    lemma_target_at(s, p, t);
    lemma_version_at(s, e + 1, v);
}

/// A header line: the name, a colon, white space, the value, white space,
/// the line end.
pub open spec fn header_line(name: Seq<u8>, gap: Seq<u8>, value: Seq<u8>, tail: Seq<u8>, eol: Seq<u8>) -> Seq<u8> {
    name + seq![0x3au8] + gap + value + tail + eol
}

/// Moving back from `j` over line-break and white-space bytes stops at `i`,
/// where the byte before is none of them.
proof fn lemma_trim_to(s: Seq<u8>, i: int, j: int)
    requires
        0 < i <= j <= s.len(),
        forall|k: int| i <= k < j ==> trailing_ws(#[trigger] s[k]),
        !trailing_ws(s[i - 1]),
    ensures
        trim_end(s, j) == i,
    decreases j - i,
{
    if j > i {
        assert(trailing_ws(s[j - 1]));
        lemma_trim_to(s, i, j - 1);
    }
}

/// The name of a header line at the cursor `c` of `s`: token bytes up to
/// the colon; what follows is read from the colon on.
proof fn lemma_header_name(st: State, h: Header, s: Seq<u8>, name: Seq<u8>, gap: Seq<u8>)
    requires
        st.state == 0,
        name.len() > 0,
        all_tchar(name),
        all_blank(gap),
        st.cursor + name.len() + 1 + gap.len() < s.len() <= usize::MAX,
        s.subrange(st.cursor as int, st.cursor + name.len()) == name,
        s[st.cursor + name.len()] == 0x3a,
        s.subrange(st.cursor + name.len() + 1, st.cursor + name.len() + 1 + gap.len()) == gap,
        !is_blank(s[st.cursor + name.len() + 1 + gap.len()]),
    ensures
        header_spec(st, h, s) == gap_spec(
            State { start: st.start, cursor: (st.cursor + name.len() + 1) as usize, state: 2 },
            Header {
                name: SlicePos { start: st.cursor, end: (st.cursor + name.len()) as usize },
                value: h.value,
            },
            s,
        ),
        scan(s, st.cursor + name.len() + 1, ByteClass::Lws) == st.cursor + name.len() + 1 + gap.len(),
{
    let c = st.cursor as int;
    let a = c + name.len();
    let w = a + 1 + gap.len();
    assert forall|k: int| c <= k < a implies #[trigger] in_class(ByteClass::Token, s[k]) by {
        assert(s[k] == s.subrange(c, a)[k - c]);
        assert(is_rfc_tchar(name[k - c]));
    }
    assert forall|k: int| a + 1 <= k < w implies #[trigger] in_class(ByteClass::Lws, s[k]) by {
        assert(s[k] == s.subrange(a + 1, w)[k - a - 1]);
        assert(is_blank(gap[k - a - 1]));
    }
    assert(in_class(ByteClass::Token, s[c]));
    lemma_scan_unique(s, c + 1, ByteClass::Token, a);
    lemma_scan_unique(s, a + 1, ByteClass::Lws, w);
}

/// A header line whose name is a nonempty run of token bytes and whose
/// value is a run of text bytes that starts and ends with no white space
/// is read whole from the start of a line wherever it stands in the
/// buffer, with any white space around the value: the name and the value
/// are their positions in the buffer, and the parse starts over just past
/// the line.
pub proof fn law_header_line(
    st: State,
    h: Header,
    before: Seq<u8>,
    name: Seq<u8>,
    gap: Seq<u8>,
    value: Seq<u8>,
    tail: Seq<u8>,
    eol: Seq<u8>,
)
    requires
        st.state == 0,
        st.cursor == before.len(),
        name.len() > 0,
        all_tchar(name),
        all_blank(gap),
        value.len() > 0,
        forall|k: int| 0 <= k < value.len() ==> is_text_byte(#[trigger] value[k]),
        !is_blank(value[0]),
        !is_blank(value.last()),
        all_blank(tail),
        is_line_end(eol),
        (before + header_line(name, gap, value, tail, eol)).len() <= usize::MAX,
    ensures
        ({
            let c = before.len();
            let v0 = c + name.len() + 1 + gap.len();
            let q = (v0 + value.len() + tail.len() + eol.len()) as usize;
            header_spec(st, h, before + header_line(name, gap, value, tail, eol)) == (
                State { start: q, cursor: q, state: 0 },
                Header {
                    name: SlicePos { start: c as usize, end: (c + name.len()) as usize },
                    value: SlicePos { start: v0 as usize, end: (v0 + value.len()) as usize },
                },
                Ok::<Status<HeaderParsed>, crate::Error>(Status::Complete(HeaderParsed::Header(q))),
            )
        }),
{
    let s = before + header_line(name, gap, value, tail, eol);
    let c = before.len() as int;
    let a = c + name.len() as int;
    let w = a + 1 + gap.len() as int;
    let v1 = w + value.len() as int;
    let e = v1 + tail.len() as int;
    assert(s.subrange(e, s.len() as int) =~= eol);
    lemma_line_end_at(s, e, eol);
    assert(s.subrange(c, a) =~= name);
    assert(s.subrange(a + 1, w) =~= gap);
    assert(s[a] == 0x3a);
    assert(s[w] == value[0]);
    assert(s[v1 - 1] == value[value.len() - 1]);
    lemma_header_name(st, h, s, name, gap);
    assert forall|k: int| w <= k < e implies #[trigger] in_class(ByteClass::Field, s[k]) by {
        if k < v1 {
            assert(s[k] == value[k - w]);
            assert(is_text_byte(value[k - w]));
        } else {
            assert(s[k] == tail[k - v1]);
            assert(is_blank(tail[k - v1]));
        }
    }
    lemma_scan_unique(s, w + 1, ByteClass::Field, e);
    assert forall|k: int| v1 <= k < s.len() implies trailing_ws(#[trigger] s[k]) by {
        if k < e {
            assert(s[k] == tail[k - v1]);
            assert(is_blank(tail[k - v1]));
        } else {
            assert(s[k] == eol[k - e]);
        }
    }
    assert(is_text_byte(value[value.len() - 1]));
    lemma_trim_to(s, v1, s.len() as int);
}

/// A header line with nothing but white space after the colon has an
/// empty value; it is read whole wherever it stands in the buffer.
pub proof fn law_header_empty_value(st: State, h: Header, before: Seq<u8>, name: Seq<u8>, gap: Seq<u8>, eol: Seq<u8>)
    requires
        st.state == 0,
        st.cursor == before.len(),
        name.len() > 0,
        all_tchar(name),
        all_blank(gap),
        is_line_end(eol),
        (before + header_line(name, gap, Seq::empty(), Seq::empty(), eol)).len() <= usize::MAX,
    ensures
        ({
            let c = before.len();
            let q = (c + name.len() + 1 + gap.len() + eol.len()) as usize;
            header_spec(st, h, before + header_line(name, gap, Seq::empty(), Seq::empty(), eol)) == (
                State { start: q, cursor: q, state: 0 },
                Header {
                    name: SlicePos { start: c as usize, end: (c + name.len()) as usize },
                    value: SlicePos { start: 0, end: 0 },
                },
                Ok::<Status<HeaderParsed>, crate::Error>(Status::Complete(HeaderParsed::Header(q))),
            )
        }),
{
    let s = before + header_line(name, gap, Seq::empty(), Seq::empty(), eol);
    let c = before.len() as int;
    let a = c + name.len() as int;
    let w = a + 1 + gap.len() as int;
    assert(s.subrange(c, a) =~= name);
    assert(s.subrange(a + 1, w) =~= gap);
    assert(s[a] == 0x3a);
    assert(s.subrange(w, s.len() as int) =~= eol);
    lemma_line_end_at(s, w, eol);
    lemma_header_name(st, h, s, name, gap);
}

/// An empty line at the cursor ends the head: its length is counted from
/// the accepted start, with CR LF two bytes and a bare LF one, whatever
/// follows.
pub proof fn law_header_end_of_head(st: State, h: Header, before: Seq<u8>, eol: Seq<u8>, rest: Seq<u8>)
    requires
        st.state == 0,
        st.cursor == before.len(),
        st.start <= st.cursor,
        is_line_end(eol),
    ensures
        ({
            let c2 = before.len() + eol.len();
            header_spec(st, h, before + eol + rest) == (
                State { start: st.start, cursor: c2 as usize, state: 0 },
                h,
                Ok::<Status<HeaderParsed>, crate::Error>(
                    Status::Complete(HeaderParsed::Eof((c2 - st.start) as usize)),
                ),
            )
        }),
{
    let s = before + eol + rest;
    let c = before.len() as int;
    assert(s[c] == eol[0]);
    if eol == crlf() {
        assert(s[c + 1] == eol[1]);
    }
}

/// A request line whose eight bytes after the target are neither
/// `HTTP/1.0` nor `HTTP/1.1` is refused for its version, with the method
/// and the path already set.
pub proof fn law_request_bad_version(req: Request, m: Seq<u8>, t: Seq<u8>, w: Seq<u8>, rest: Seq<u8>)
    requires
        m.len() > 0,
        all_tchar(m),
        t.len() > 0,
        all_target(t),
        vstd::utf8::valid_utf8(t),
        w.len() == 8,
        w[0] != 0x20,
        w != http1_version(0),
        w != http1_version(1),
        (m + seq![0x20u8] + t + seq![0x20u8] + w + rest).len() <= usize::MAX,
    ensures
        request_spec(req, m + seq![0x20u8] + t + seq![0x20u8] + w + rest) == (
            Request {
                method: SlicePos { start: 0, end: m.len() as usize },
                path: SlicePos { start: (m.len() + 1) as usize, end: (m.len() + 1 + t.len()) as usize },
                version: req.version,
            },
            Err::<Status<usize>, crate::Error>(crate::Error::Version),
        ),
{
    let s = m + seq![0x20u8] + t + seq![0x20u8] + w + rest;
    let a = m.len() as int;
    let p = a + 1;
    let e = p + t.len();
    assert(s.subrange(0, a) =~= m);
    assert(s[a] == 0x20);
    assert(s.subrange(p, e) =~= t);
    assert(s[e] == 0x20);
    assert(s.subrange(e + 1, e + 9) =~= w);
    assert(s[e + 1] == w[0]);
    assert(s[p] == t[0]);
    assert(is_target_byte(t[0]));
    assert(s[0] == m[0]);
    assert(is_rfc_tchar(m[0]));
    assert(crate::version::version_bytes(0) =~= http1_version(0));
    assert(crate::version::version_bytes(1) =~= http1_version(1));
    assert(empty_lines_spec(s, 0) == Ok::<Status<((), int)>, crate::Error>(Status::Complete(((), 0))));
    lemma_method_at(s, 0, m);
    lemma_target_at(s, p, t);
}

/// A status line whose code does not start with three digits is refused
/// for its status, with the version already set.
pub proof fn law_status_bad_code(res: Response, v: u8, c: Seq<u8>, rest: Seq<u8>)
    requires
        v <= 1,
        c.len() == 3,
        c[0] != 0x20,
        !(is_ascii_digit(c[0]) && is_ascii_digit(c[1]) && is_ascii_digit(c[2])),
    ensures
        response_spec(res, http1_version(v) + seq![0x20u8] + c + rest) == (
            Response { version: v, code: res.code, reason: res.reason },
            Err::<Status<usize>, crate::Error>(crate::Error::Status),
        ),
{
    let s = http1_version(v) + seq![0x20u8] + c + rest;
    assert(s.subrange(0, 8) =~= http1_version(v));
    assert(s[8] == 0x20 && s[9] == c[0] && s[10] == c[1] && s[11] == c[2]);
    lemma_version_at(s, 0, v);
    lemma_scan_unique(s, 9, ByteClass::Space, 9);
    assert(empty_lines_spec(s, 0) == Ok::<Status<((), int)>, crate::Error>(Status::Complete(((), 0))));
    assert(empty_lines_spec(s, 8) == Ok::<Status<((), int)>, crate::Error>(Status::Complete(((), 8))));
    assert(spaces_spec(s, 9) == Ok::<Status<((), int)>, crate::Error>(Status::Complete(((), 9))));
}

/// A header line whose name runs into a byte that is neither a token byte
/// nor the colon nor a line break is refused for its name.
pub proof fn law_header_bad_name(h: Header, name: Seq<u8>, b: u8, rest: Seq<u8>)
    requires
        all_tchar(name),
        !is_rfc_tchar(b),
        b != 0x3a,
        b != 0x0d,
        b != 0x0a,
    ensures
        header_spec(State { start: 0, cursor: 0, state: 0 }, h, name + seq![b] + rest).2 == Err::<
            Status<HeaderParsed>,
            crate::Error,
        >(crate::Error::HeaderName),
{
    let s = name + seq![b] + rest;
    let a = name.len() as int;
    assert(s[a] == b);
    assert forall|k: int| 0 <= k < a implies #[trigger] in_class(ByteClass::Token, s[k]) by {
        assert(s[k] == name[k]);
        assert(is_rfc_tchar(name[k]));
    }
    if a > 0 {
        assert(in_class(ByteClass::Token, s[0]));
        lemma_scan_unique(s, 1, ByteClass::Token, a);
    }
}

/// More than sixteen hexadecimal digits are refused as a chunk size,
/// whatever follows them.
pub proof fn law_chunk_size_too_long(d: Seq<u8>, rest: Seq<u8>)
    requires
        d.len() > 16,
        all_hex(d),
    ensures
        chunk_size_spec(d + rest) == Err::<Status<(usize, u64)>, crate::InvalidChunkSize>(crate::InvalidChunkSize),
{
    let s = d + rest;
    assert forall|k: int| 0 <= k < d.len() implies #[trigger] in_class(ByteClass::Hex, s[k]) by {
        assert(s[k] == d[k]);
        assert(is_hex_byte(d[k]));
    }
    lemma_scan_skip(s, 0, d.len() as int, ByteClass::Hex);
}

/// After the size digits and white space, a byte other than `;` and CR is
/// refused, whatever follows it.
pub proof fn law_chunk_size_bad_byte(d: Seq<u8>, ws: Seq<u8>, b: u8, rest: Seq<u8>)
    requires
        d.len() <= 16,
        all_hex(d),
        all_blank(ws),
        !is_hex_byte(b),
        !is_blank(b),
        b != 0x3b,
        b != 0x0d,
    ensures
        chunk_size_spec(d + ws + seq![b] + rest) == Err::<Status<(usize, u64)>, crate::InvalidChunkSize>(
            crate::InvalidChunkSize,
        ),
{
    let s = d + ws + seq![b] + rest;
    let w: int = d.len() + ws.len() as int;
    assert(s.subrange(0, d.len() as int) =~= d);
    assert(s.subrange(d.len() as int, w) =~= ws);
    assert(s[w] == b);
    lemma_size_digits(s, d, ws);
}

/// A request target of target bytes that is not valid UTF-8 is refused as
/// a token.
pub proof fn law_request_target_not_utf8(t: Seq<u8>, rest: Seq<u8>)
    requires
        t.len() > 0,
        all_target(t),
        !vstd::utf8::valid_utf8(t),
    ensures
        uri_spec(target_then(t, rest), 0) == Err::<Status<(SlicePos, int)>, crate::Error>(crate::Error::Token),
{
    let s = target_then(t, rest);
    let e = t.len() as int;
    assert(s.subrange(0, e) =~= t);
    assert(s[e] == 0x20);
    assert forall|k: int| 0 <= k < e implies #[trigger] in_class(ByteClass::Uri, s[k]) by {
        assert(s[k] == t[k]);
        assert(is_target_byte(t[k]));
    }
    lemma_scan_unique(s, 0, ByteClass::Uri, e);
}

/// A request line whose version is followed by a byte that starts no line
/// break is refused for its line break, with the method, the path and the
/// version already set.
pub proof fn law_request_bad_line_end(req: Request, m: Seq<u8>, t: Seq<u8>, v: u8, b: u8, rest: Seq<u8>)
    requires
        m.len() > 0,
        all_tchar(m),
        t.len() > 0,
        all_target(t),
        vstd::utf8::valid_utf8(t),
        v <= 1,
        b != 0x0d,
        b != 0x0a,
        (m + seq![0x20u8] + t + seq![0x20u8] + http1_version(v) + seq![b] + rest).len() <= usize::MAX,
    ensures
        request_spec(req, m + seq![0x20u8] + t + seq![0x20u8] + http1_version(v) + seq![b] + rest) == (
            Request {
                method: SlicePos { start: 0, end: m.len() as usize },
                path: SlicePos { start: (m.len() + 1) as usize, end: (m.len() + 1 + t.len()) as usize },
                version: v,
            },
            Err::<Status<usize>, crate::Error>(crate::Error::NewLine),
        ),
{
    let s = m + seq![0x20u8] + t + seq![0x20u8] + http1_version(v) + seq![b] + rest;
    let a = m.len() as int;
    let p = a + 1;
    let e = p + t.len();
    assert(s.subrange(0, a) =~= m);
    assert(s[a] == 0x20);
    assert(s.subrange(p, e) =~= t);
    assert(s[e] == 0x20);
    assert(s.subrange(e + 1, e + 9) =~= http1_version(v));
    assert(s[e + 1] == 0x48);
    assert(s[e + 9] == b);
    assert(s[p] == t[0]);
    assert(is_target_byte(t[0]));
    assert(s[0] == m[0]);
    assert(is_rfc_tchar(m[0]));
    assert(empty_lines_spec(s, 0) == Ok::<Status<((), int)>, crate::Error>(Status::Complete(((), 0))));
    lemma_method_at(s, 0, m);
    lemma_target_at(s, p, t);
    lemma_version_at(s, e + 1, v);
}

/// A CR that no LF follows, where an empty line may stand before a request
/// or a status line, is refused for its line break, with nothing set.
pub proof fn law_bad_empty_line(req: Request, res: Response, b: u8, rest: Seq<u8>)
    requires
        b != 0x0a,
    ensures
        request_spec(req, seq![0x0du8, b] + rest) == (req, Err::<Status<usize>, crate::Error>(crate::Error::NewLine)),
        response_spec(res, seq![0x0du8, b] + rest) == (res, Err::<Status<usize>, crate::Error>(crate::Error::NewLine)),
{
    let s = seq![0x0du8, b] + rest;
    assert(s[0] == 0x0d && s[1] == b);
    assert(empty_lines_spec(s, 0) == Err::<Status<((), int)>, crate::Error>(crate::Error::NewLine));
}

/// A status code followed by a byte that is neither a space nor the start
/// of a line break is refused for its status, with the version and the
/// code already set.
pub proof fn law_status_bad_tail(res: Response, v: u8, d0: u8, d1: u8, d2: u8, b: u8, rest: Seq<u8>)
    requires
        v <= 1,
        is_ascii_digit(d0),
        is_ascii_digit(d1),
        is_ascii_digit(d2),
        b != 0x20,
        b != 0x0d,
        b != 0x0a,
    ensures
        response_spec(res, http1_version(v) + seq![0x20u8, d0, d1, d2, b] + rest) == (
            Response { version: v, code: decimal3(d0, d1, d2) as u16, reason: res.reason },
            Err::<Status<usize>, crate::Error>(crate::Error::Status),
        ),
{
    let s = http1_version(v) + seq![0x20u8, d0, d1, d2, b] + rest;
    let lead = Seq::<u8>::empty();
    assert(s.subrange(0, 0) =~= lead);
    assert(s.subrange(0, 8) =~= http1_version(v));
    assert(s[8] == 0x20 && s[9] == d0 && s[10] == d1 && s[11] == d2 && s[12] == b);
    lemma_status_start(res, s, lead, v, d0, d1, d2);
}

/// A header line whose value runs into a byte that is not a text byte and
/// starts no line break is refused for its value.
pub proof fn law_header_bad_value(h: Header, name: Seq<u8>, gap: Seq<u8>, value: Seq<u8>, b: u8, rest: Seq<u8>)
    requires
        name.len() > 0,
        all_tchar(name),
        all_blank(gap),
        forall|k: int| 0 <= k < value.len() ==> is_text_byte(#[trigger] value[k]),
        value.len() > 0 ==> !is_blank(value[0]),
        !is_text_byte(b),
        b != 0x0d,
        b != 0x0a,
        (name + seq![0x3au8] + gap + value + seq![b] + rest).len() <= usize::MAX,
    ensures
        header_spec(State { start: 0, cursor: 0, state: 0 }, h, name + seq![0x3au8] + gap + value + seq![b] + rest).2
            == Err::<Status<HeaderParsed>, crate::Error>(crate::Error::HeaderValue),
{
    let s = name + seq![0x3au8] + gap + value + seq![b] + rest;
    let a = name.len() as int;
    let w = a + 1 + gap.len() as int;
    let e = w + value.len() as int;
    assert(s.subrange(0, a) =~= name);
    assert(s.subrange(a + 1, w) =~= gap);
    assert(s[a] == 0x3a);
    assert(s[e] == b);
    if value.len() > 0 {
        assert(s[w] == value[0]);
    }
    lemma_header_name(State { start: 0, cursor: 0, state: 0 }, h, s, name, gap);
    if value.len() > 0 {
        assert forall|k: int| w <= k < e implies #[trigger] in_class(ByteClass::Field, s[k]) by {
            assert(s[k] == value[k - w]);
            assert(is_text_byte(value[k - w]));
        }
        lemma_scan_unique(s, w + 1, ByteClass::Field, e);
    }
}

/// `GET`, and `POST`.
pub open spec fn is_shortcut_method(m: Seq<u8>) -> bool {
    m == seq![0x47u8, 0x45, 0x54] || m == seq![0x50u8, 0x4f, 0x53, 0x54]
}

/// After `GET` or `POST` any number of spaces may stand before the target;
/// the line is read whole as with one space.
pub proof fn law_request_shortcut_spaces(
    req: Request,
    m: Seq<u8>,
    gap: Seq<u8>,
    t: Seq<u8>,
    v: u8,
    eol: Seq<u8>,
)
    requires
        is_shortcut_method(m),
        gap.len() > 0,
        forall|k: int| 0 <= k < gap.len() ==> #[trigger] gap[k] == 0x20,
        t.len() > 0,
        all_target(t),
        vstd::utf8::valid_utf8(t),
        v <= 1,
        is_line_end(eol),
        (m + gap + t + seq![0x20u8] + http1_version(v) + eol).len() <= usize::MAX,
    ensures
        request_spec(req, m + gap + t + seq![0x20u8] + http1_version(v) + eol) == (
            Request {
                method: SlicePos { start: 0, end: m.len() as usize },
                path: SlicePos { start: (m.len() + gap.len()) as usize, end: (m.len() + gap.len() + t.len()) as usize },
                version: v,
            },
            Ok::<Status<usize>, crate::Error>(
                Status::Complete((m.len() + gap.len() + t.len() + 9 + eol.len()) as usize),
            ),
        ),
{
    let s = m + gap + t + seq![0x20u8] + http1_version(v) + eol;
    let a = m.len() as int;
    let p = a + gap.len() as int;
    let e = p + t.len();
    assert(s.subrange(0, a) =~= m);
    assert forall|k: int| a <= k < p implies #[trigger] in_class(ByteClass::Space, s[k]) by {
        assert(s[k] == gap[k - a]);
    }
    assert(s[a] == 0x20);
    assert(s.subrange(p, e) =~= t);
    assert(s[e] == 0x20);
    assert(s.subrange(e + 1, e + 9) =~= http1_version(v));
    assert(s[e + 1] == 0x48);
    assert(s.subrange(e + 9, s.len() as int) =~= eol);
    lemma_line_end_at(s, e + 9, eol);
    assert(s[p] == t[0]);
    assert(is_target_byte(t[0]));
    assert(s[0] == m[0]);
    assert(empty_lines_spec(s, 0) == Ok::<Status<((), int)>, crate::Error>(Status::Complete(((), 0))));
    lemma_scan_unique(s, a + 1, ByteClass::Space, p);
    if m == seq![0x47u8, 0x45, 0x54] {
        assert(s.subrange(0, 4) =~= get_sp());
    } else {
        assert(s.subrange(0, 4)[0] == s[0]);
        assert(!starts_with(s, 0, get_sp()));
        assert(s.subrange(0, 5) =~= post_sp());
    }
    lemma_target_at(s, p, t);
    lemma_version_at(s, e + 1, v);
}

} // verus!
