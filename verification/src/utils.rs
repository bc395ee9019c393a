use vstd::prelude::*;

use crate::iter::Bytes;
use crate::{Error, Status};

verus! {

pub const HTAB: u8 = 0x09;
pub const LF: u8 = 0x0a;
pub const CR: u8 = 0x0d;
pub const SP: u8 = 0x20;

/// `tchar` of RFC 7230: a visible character other than a delimiter.
pub open spec fn tchar(b: u8) -> bool {
    ||| 0x41 <= b <= 0x5a  // A-Z
    ||| 0x61 <= b <= 0x7a  // a-z
    ||| 0x30 <= b <= 0x39  // 0-9
    // ! # $ % & '
    ||| b == 0x21 || b == 0x23 || b == 0x24 || b == 0x25 || b == 0x26 || b == 0x27
    // * + - . ^ _
    ||| b == 0x2a || b == 0x2b || b == 0x2d || b == 0x2e || b == 0x5e || b == 0x5f
    // ` | ~
    ||| b == 0x60 || b == 0x7c || b == 0x7e
}

/// Bytes accepted in a request target: anything visible but DEL, and every
/// byte from 0x80 on.
pub open spec fn uri_char(b: u8) -> bool {
    (0x21 <= b <= 0x7e) || b >= 0x80
}

/// Bytes accepted in a header value and in a reason phrase: HTAB, SP,
/// VCHAR and obs-text.
pub open spec fn field_char(b: u8) -> bool {
    b == HTAB || (SP <= b <= 0x7e) || b >= 0x80
}

pub open spec fn hex_digit(b: u8) -> bool {
    (0x30 <= b <= 0x39) || (0x61 <= b <= 0x66) || (0x41 <= b <= 0x46)
}

/// Linear white space: SP or HTAB.
pub open spec fn lws(b: u8) -> bool {
    b == SP || b == HTAB
}

/// The classes of bytes that the parsers skip over.
pub enum ByteClass {
    Token,
    Uri,
    Field,
    Space,
    Lws,
    Hex,
    NotCr,
}

pub open spec fn in_class(c: ByteClass, b: u8) -> bool {
    match c {
        ByteClass::Token => tchar(b),
        ByteClass::Uri => uri_char(b),
        ByteClass::Field => field_char(b),
        ByteClass::Space => b == SP,
        ByteClass::Lws => lws(b),
        ByteClass::Hex => hex_digit(b),
        ByteClass::NotCr => b != CR,
    }
}

/// The end of the run of bytes of class `c` that starts at `p`: the first
/// index from `p` on that is past the buffer or holds a byte outside `c`.
pub open spec fn scan(s: Seq<u8>, p: int, c: ByteClass) -> int
    decreases s.len() - p,
{
    if 0 <= p < s.len() && in_class(c, s[p]) {
        scan(s, p + 1, c)
    } else {
        p
    }
}

/// Every byte of `s` in `[i, j)` is of class `c`.
pub open spec fn all_in(s: Seq<u8>, i: int, j: int, c: ByteClass) -> bool {
    forall|k: int| i <= k < j ==> #[trigger] in_class(c, s[k])
}

pub proof fn lemma_scan(s: Seq<u8>, p: int, c: ByteClass)
    requires
        0 <= p <= s.len(),
    ensures
        p <= scan(s, p, c) <= s.len(),
        all_in(s, p, scan(s, p, c), c),
        scan(s, p, c) < s.len() ==> !in_class(c, s[scan(s, p, c)]),
    decreases s.len() - p,
{
    if p < s.len() && in_class(c, s[p]) {
        lemma_scan(s, p + 1, c);
    }
}

pub proof fn lemma_scan_ge(s: Seq<u8>, p: int, c: ByteClass)
    ensures
        scan(s, p, c) >= p,
        p >= s.len() ==> scan(s, p, c) == p,
    decreases s.len() - p,
{
    if 0 <= p < s.len() && in_class(c, s[p]) {
        lemma_scan_ge(s, p + 1, c);
    }
}

/// A run end is determined by what it is: the scan ends at `e` exactly when
/// all of `[p, e)` is in the class and `e` is not.
pub proof fn lemma_scan_unique(s: Seq<u8>, p: int, c: ByteClass, e: int)
    requires
        0 <= p <= e <= s.len(),
        all_in(s, p, e, c),
        e < s.len() ==> !in_class(c, s[e]),
    ensures
        scan(s, p, c) == e,
    decreases e - p,
{
    if p < e {
        assert(in_class(c, s[p]));
        lemma_scan_unique(s, p + 1, c, e);
    }
}

/// On a prefix, a run ends where it ends on the whole buffer, or at the end
/// of the prefix.
pub proof fn lemma_scan_prefix(s: Seq<u8>, p: int, c: ByteClass, i: int)
    requires
        0 <= p <= i <= s.len(),
    ensures
        scan(s.take(i), p, c) == (if scan(s, p, c) < i { scan(s, p, c) } else { i }),
{
    lemma_scan(s, p, c);
    let e = scan(s, p, c);
    let e2 = if e < i { e } else { i };
    let t = s.take(i);
    assert forall|k: int| p <= k < e2 implies #[trigger] in_class(c, t[k]) by {
        assert(in_class(c, s[k]));
    }
    lemma_scan_unique(t, p, c, e2);
}

/// A run scanned from a point inside it ends where the whole run ends.
pub proof fn lemma_scan_inside(s: Seq<u8>, p: int, q: int, c: ByteClass)
    requires
        0 <= p <= q <= scan(s, p, c),
        p <= s.len(),
    ensures
        scan(s, q, c) == scan(s, p, c),
{
    lemma_scan(s, p, c);
    lemma_scan_unique(s, q, c, scan(s, p, c));
}

/// A run that ends inside the buffer, or at its end where the bytes added
/// after the buffer start with one outside the class, ends alike on the
/// longer buffer.
pub proof fn lemma_scan_extend(s: Seq<u8>, x: Seq<u8>, p: int, c: ByteClass)
    requires
        0 <= p <= s.len(),
        scan(s, p, c) < s.len() || (x.len() > 0 && !in_class(c, x[0])),
    ensures
        scan(s + x, p, c) == scan(s, p, c),
{
    lemma_scan(s, p, c);
    let e = scan(s, p, c);
    let t = s + x;
    assert forall|k: int| p <= k < e implies #[trigger] in_class(c, t[k]) by {
        assert(in_class(c, s[k]));
    }
    lemma_scan_unique(t, p, c, e);
}

/// A run that covers `[p, k)` goes on from `k` as it does from `p`.
pub proof fn lemma_scan_skip(s: Seq<u8>, p: int, k: int, c: ByteClass)
    requires
        0 <= p <= k <= s.len(),
        all_in(s, p, k, c),
    ensures
        scan(s, p, c) == scan(s, k, c),
        scan(s, p, c) >= k,
    decreases k - p,
{
    if p < k {
        assert(in_class(c, s[p]));
        lemma_scan_skip(s, p + 1, k, c);
    } else {
        lemma_scan(s, k, c);
    }
}

/// Bytes below 0x80 are each a UTF-8 encoding of one character.
pub proof fn lemma_ascii_valid_utf8(b: Seq<u8>)
    requires
        forall|i: int| 0 <= i < b.len() ==> b[i] < 0x80,
    ensures
        vstd::utf8::valid_utf8(b),
    decreases b.len(),
{
    if b.len() != 0 {
        let b0 = b[0];
        assert(b0 < 0x80 ==> (b0 & 0x7f) == b0) by (bit_vector);
        let rest = vstd::utf8::pop_first_scalar(b);
        assert(rest =~= b.subrange(1, b.len() as int));
        lemma_ascii_valid_utf8(rest);
    }
}

/// The outcome of one parsing step that starts at some index of a buffer:
/// on completion the value read and the index where the step stopped.
pub type Step<T> = Result<Status<(T, int)>, Error>;

/// What a step hands its caller: the value without the index.
pub open spec fn value_of<T>(r: Step<T>) -> Result<Status<T>, Error> {
    match r {
        Ok(Status::Complete((v, _))) => Ok(Status::Complete(v)),
        Ok(Status::Partial) => Ok(Status::Partial),
        Err(e) => Err(e),
    }
}

/// The index where a completed step stopped.
pub open spec fn end_of<T>(r: Step<T>) -> int {
    match r {
        Ok(Status::Complete((_, q))) => q,
        _ => 0,
    }
}

pub open spec fn is_complete<T>(r: Step<T>) -> bool {
    r matches Ok(Status::Complete(_))
}

/// A buffer cursor that has moved to `q` and accepted everything before it.
pub open spec fn moved_to(old: Bytes, new: Bytes, q: int) -> bool {
    &&& new.slice == old.slice
    &&& new.st.cursor == q
    &&& new.st.start == q
    &&& new.st.state == old.st.state
}

/// A buffer cursor that has moved to `q`, keeping its accepted start.
pub open spec fn read_to(old: Bytes, new: Bytes, q: int) -> bool {
    &&& new.slice == old.slice
    &&& new.st.cursor == q
    &&& new.st.start == old.st.start
    &&& new.st.state == old.st.state
}

/// A buffer cursor left at `cursor` with its accepted start at `start`;
/// the buffer and the header-parse state are unchanged.
pub open spec fn left_at(old: Bytes, new: Bytes, cursor: int, start: int) -> bool {
    &&& new.slice == old.slice
    &&& new.st.cursor == cursor
    &&& new.st.start == start
    &&& new.st.state == old.st.state
}

/// Where skipping empty lines from `p` leaves the cursor, whatever the
/// outcome: past the last byte it read.
pub open spec fn empty_lines_stop(s: Seq<u8>, p: int) -> int
    decreases s.len() - p,
{
    if p < 0 || p >= s.len() {
        p
    } else if s[p] == CR {
        if p + 1 >= s.len() {
            p + 1
        } else if s[p + 1] == LF {
            empty_lines_stop(s, p + 2)
        } else {
            p + 2
        }
    } else if s[p] == LF {
        empty_lines_stop(s, p + 1)
    } else {
        p
    }
}

/// Skipping empty lines (CRLF or a bare LF) from `p`: completes at the first
/// byte that starts no line break.
pub open spec fn empty_lines_spec(s: Seq<u8>, p: int) -> Step<()>
    decreases s.len() - p,
{
    if p < 0 || p >= s.len() {
        Ok(Status::Partial)
    } else if s[p] == CR {
        if p + 1 >= s.len() {
            Ok(Status::Partial)
        } else if s[p + 1] == LF {
            empty_lines_spec(s, p + 2)
        } else {
            Err(Error::NewLine)
        }
    } else if s[p] == LF {
        empty_lines_spec(s, p + 1)
    } else {
        Ok(Status::Complete(((), p)))
    }
}

pub proof fn lemma_empty_lines(s: Seq<u8>, p: int)
    requires
        0 <= p,
    ensures
        is_complete(empty_lines_spec(s, p)) ==> p <= end_of(empty_lines_spec(s, p)) < s.len(),
    decreases s.len() - p,
{
    if 0 <= p < s.len() {
        if s[p] == CR && p + 1 < s.len() && s[p + 1] == LF {
            lemma_empty_lines(s, p + 2);
        } else if s[p] == LF {
            lemma_empty_lines(s, p + 1);
        }
    }
}

/// Skipping spaces from `p`: completes at the first byte that is no space;
/// a run of spaces that reaches the end of the buffer is partial.
pub open spec fn spaces_spec(s: Seq<u8>, p: int) -> Step<()> {
    let q = scan(s, p, ByteClass::Space);
    if q >= s.len() {
        Ok(Status::Partial)
    } else {
        Ok(Status::Complete(((), q)))
    }
}

pub fn is_token(b: u8) -> (r: bool)
    ensures
        r == tchar(b),
{
    (0x41 <= b && b <= 0x5a) || (0x61 <= b && b <= 0x7a) || (0x30 <= b && b <= 0x39) || b == 0x21
        || b == 0x23 || b == 0x24 || b == 0x25 || b == 0x26 || b == 0x27 || b == 0x2a || b == 0x2b
        || b == 0x2d || b == 0x2e || b == 0x5e || b == 0x5f || b == 0x60 || b == 0x7c || b == 0x7e
}

/// Determines if byte is a method token char.
pub fn is_method_token(b: u8) -> (r: bool)
    ensures
        r == tchar(b),
{
    if 0x41 <= b && b <= 0x5a {
        true
    } else {
        is_token(b)
    }
}

pub fn is_uri_token(b: u8) -> (r: bool)
    ensures
        r == uri_char(b),
{
    (0x21 <= b && b <= 0x7e) || b >= 0x80
}

pub fn is_header_name_token(b: u8) -> (r: bool)
    ensures
        r == tchar(b),
{
    is_token(b)
}

pub fn is_header_value_token(b: u8) -> (r: bool)
    ensures
        r == field_char(b),
{
    b == HTAB || (SP <= b && b <= 0x7e) || b >= 0x80
}

pub fn skip_empty_lines(bytes: &mut Bytes) -> (r: Result<Status<()>, Error>)
    requires
        old(bytes).st.cursor <= old(bytes).slice@.len(),
    ensures
        r == value_of(empty_lines_spec(old(bytes).bytes(), old(bytes).pos())),
        is_complete(empty_lines_spec(old(bytes).bytes(), old(bytes).pos())) ==> moved_to(
            *old(bytes),
            *final(bytes),
            end_of(empty_lines_spec(old(bytes).bytes(), old(bytes).pos())),
        ),
        left_at(
            *old(bytes),
            *final(bytes),
            empty_lines_stop(old(bytes).bytes(), old(bytes).pos()),
            if is_complete(empty_lines_spec(old(bytes).bytes(), old(bytes).pos())) {
                empty_lines_stop(old(bytes).bytes(), old(bytes).pos())
            } else {
                old(bytes).st.start as int
            },
        ),
{
    let ghost s = bytes.bytes();
    let ghost p0 = bytes.pos();
    loop
        invariant
            bytes.slice == old(bytes).slice,
            bytes.st.start == old(bytes).st.start,
            bytes.st.state == old(bytes).st.state,
            bytes.st.cursor <= s.len(),
            s == bytes.bytes(),
            p0 == old(bytes).pos(),
            empty_lines_spec(s, bytes.pos()) == empty_lines_spec(s, p0),
            empty_lines_stop(s, bytes.pos()) == empty_lines_stop(s, p0),
        decreases s.len() - bytes.pos(),
    {
        match bytes.peek() {
            Some(b) => {
                if b == CR {
                    bytes.advance(1);
                    match bytes.next() {
                        Some(b2) => {
                            if b2 != LF {
                                return Err(Error::NewLine);
                            }
                        },
                        None => {
                            return Ok(Status::Partial);
                        },
                    }
                } else if b == LF {
                    bytes.advance(1);
                } else {
                    bytes.commit();
                    return Ok(Status::Complete(()));
                }
            },
            None => {
                return Ok(Status::Partial);
            },
        }
    }
}

pub fn skip_spaces(bytes: &mut Bytes) -> (r: Result<Status<()>, Error>)
    requires
        old(bytes).st.cursor <= old(bytes).slice@.len(),
    ensures
        r == value_of(spaces_spec(old(bytes).bytes(), old(bytes).pos())),
        is_complete(spaces_spec(old(bytes).bytes(), old(bytes).pos())) ==> moved_to(
            *old(bytes),
            *final(bytes),
            end_of(spaces_spec(old(bytes).bytes(), old(bytes).pos())),
        ),
        left_at(
            *old(bytes),
            *final(bytes),
            scan(old(bytes).bytes(), old(bytes).pos(), ByteClass::Space),
            if is_complete(spaces_spec(old(bytes).bytes(), old(bytes).pos())) {
                scan(old(bytes).bytes(), old(bytes).pos(), ByteClass::Space)
            } else {
                old(bytes).st.start as int
            },
        ),
{
    let ghost s = bytes.bytes();
    let ghost p0 = bytes.pos();
    loop
        invariant
            bytes.slice == old(bytes).slice,
            bytes.st.start == old(bytes).st.start,
            bytes.st.state == old(bytes).st.state,
            p0 <= bytes.st.cursor <= s.len(),
            s == bytes.bytes(),
            p0 == old(bytes).pos(),
            scan(s, bytes.pos(), ByteClass::Space) == scan(s, p0, ByteClass::Space),
        decreases s.len() - bytes.pos(),
    {
        match bytes.peek() {
            Some(b) => {
                if b == SP {
                    bytes.advance(1);
                } else {
                    bytes.commit();
                    return Ok(Status::Complete(()));
                }
            },
            None => {
                return Ok(Status::Partial);
            },
        }
    }
}

/// Moves the cursor past the run of header-name bytes under it.
pub fn match_header_name_vectored(bytes: &mut Bytes)
    ensures
        read_to(*old(bytes), *final(bytes), scan(old(bytes).bytes(), old(bytes).pos(), ByteClass::Token)),
{
    let ghost s = bytes.bytes();
    let ghost p0 = bytes.pos();
    loop
        invariant
            bytes.slice == old(bytes).slice,
            bytes.st.start == old(bytes).st.start,
            bytes.st.state == old(bytes).st.state,
            p0 <= bytes.st.cursor,
            s == bytes.bytes(),
            p0 == old(bytes).pos(),
            scan(s, bytes.pos(), ByteClass::Token) == scan(s, p0, ByteClass::Token),
        decreases s.len() - bytes.pos(),
    {
        match bytes.peek() {
            Some(b) => {
                if is_header_name_token(b) {
                    bytes.advance(1);
                } else {
                    return;
                }
            },
            None => {
                return;
            },
        }
    }
}

/// Moves the cursor past the run of header-value bytes under it.
pub fn match_header_value_vectored(bytes: &mut Bytes)
    ensures
        read_to(*old(bytes), *final(bytes), scan(old(bytes).bytes(), old(bytes).pos(), ByteClass::Field)),
{
    let ghost s = bytes.bytes();
    let ghost p0 = bytes.pos();
    loop
        invariant
            bytes.slice == old(bytes).slice,
            bytes.st.start == old(bytes).st.start,
            bytes.st.state == old(bytes).st.state,
            p0 <= bytes.st.cursor,
            s == bytes.bytes(),
            p0 == old(bytes).pos(),
            scan(s, bytes.pos(), ByteClass::Field) == scan(s, p0, ByteClass::Field),
        decreases s.len() - bytes.pos(),
    {
        match bytes.peek() {
            Some(b) => {
                if is_header_value_token(b) {
                    bytes.advance(1);
                } else {
                    return;
                }
            },
            None => {
                return;
            },
        }
    }
}

/// Moves the cursor past the run of request-target bytes under it.
pub fn match_uri_vectored(bytes: &mut Bytes)
    ensures
        read_to(*old(bytes), *final(bytes), scan(old(bytes).bytes(), old(bytes).pos(), ByteClass::Uri)),
{
    let ghost s = bytes.bytes();
    let ghost p0 = bytes.pos();
    loop
        invariant
            bytes.slice == old(bytes).slice,
            bytes.st.start == old(bytes).st.start,
            bytes.st.state == old(bytes).st.state,
            p0 <= bytes.st.cursor,
            s == bytes.bytes(),
            p0 == old(bytes).pos(),
            scan(s, bytes.pos(), ByteClass::Uri) == scan(s, p0, ByteClass::Uri),
        decreases s.len() - bytes.pos(),
    {
        match bytes.peek() {
            Some(b) => {
                if is_uri_token(b) {
                    bytes.advance(1);
                } else {
                    return;
                }
            },
            None => {
                return;
            },
        }
    }
}

} // verus!
